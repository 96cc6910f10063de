//! The feature and lookup map: which features a shaping plan asks for,
//! the mask bits each one gets in the glyph buffer, and the lookups of
//! GSUB and GPOS that each stage of shaping applies, in order.

use vstd::prelude::*;
use crate::tag::Tag;
use crate::layout::{
    LayoutTable, spec_select_script_from, spec_select_langsys, spec_first_feature,
    spec_first_feature_record, spec_feature_indices, spec_required_feature, spec_feature_tag,
    spec_feature_lookups, spec_u16_or_zero,
};
use crate::ot::spec_u16;

verus! {

/// Which of the two layout tables.
#[derive(Clone, Copy, PartialEq, Eq, Structural, Debug)]
pub enum TableIndex {
    Gsub,
    Gpos,
}

impl TableIndex {
    pub open spec fn spec_idx(self) -> int {
        match self {
            TableIndex::Gsub => 0,
            TableIndex::Gpos => 1,
        }
    }

    pub fn idx(self) -> (r: usize)
        ensures
            r == self.spec_idx(),
    {
        match self {
            TableIndex::Gsub => 0,
            TableIndex::Gpos => 1,
        }
    }
}

pub const FF_NONE: u32 = 0x0000;
pub const FF_GLOBAL: u32 = 0x0001;
pub const FF_HAS_FALLBACK: u32 = 0x0002;
pub const FF_MANUAL_ZWNJ: u32 = 0x0004;
pub const FF_MANUAL_ZWJ: u32 = 0x0008;
pub const FF_MANUAL_JOINERS: u32 = 0x000C;
pub const FF_GLOBAL_MANUAL_JOINERS: u32 = 0x000D;
pub const FF_GLOBAL_HAS_FALLBACK: u32 = 0x0003;
pub const FF_GLOBAL_SEARCH: u32 = 0x0010;
pub const FF_RANDOM: u32 = 0x0020;
pub const FF_PER_SYLLABLE: u32 = 0x0040;

/// The most mask bits one feature takes.
pub const MAX_BITS: u32 = 8;

/// The largest value a feature can be set to.
pub const MAX_VALUE: u32 = 255;

/// The bit that global features with value one share.
pub const GLOBAL_BIT_SHIFT: u32 = 31;

pub const GLOBAL_BIT_MASK: u32 = 0x8000_0000;

/// The first mask bit that features can take: the bits below it hold the
/// glyph flags.
pub const FIRST_FREE_BIT: u32 = 4;

/// One feature as the plan asked for it.
#[derive(Clone, Copy, Debug)]
pub struct FeatureInfo {
    pub tag: Tag,
    pub seq: usize,
    pub max_value: u32,
    pub flags: u32,
    pub default_value: u32,
    pub stage: [usize; 2],
}

/// One compiled feature: where it was found, the stage it belongs to and
/// its bits in the glyph mask.
#[derive(Clone, Copy, Debug)]
pub struct FeatureMap {
    pub tag: Tag,
    pub index: [Option<u16>; 2],
    pub stage: [usize; 2],
    pub shift: u32,
    pub mask: u32,
    pub one_mask: u32,
    pub auto_zwnj: bool,
    pub auto_zwj: bool,
    pub random: bool,
    pub per_syllable: bool,
}

/// One lookup to apply, with the mask of the glyphs it applies to.
#[derive(Clone, Copy, Debug)]
pub struct LookupMap {
    pub index: u16,
    pub mask: u32,
    pub auto_zwnj: bool,
    pub auto_zwj: bool,
    pub random: bool,
    pub per_syllable: bool,
}

/// A request to switch one lookup on or off whatever the features say.
#[derive(Clone, Copy, PartialEq, Eq, Structural, Debug)]
pub struct LookupOverride {
    pub table: TableIndex,
    pub index: u16,
    pub enable: bool,
}

/// The end of a stage in the lookup list, and the pause that follows it.
#[derive(Clone, Copy, Debug)]
pub struct StageMap {
    pub last_lookup: usize,
    pub pause_index: Option<usize>,
}

/// The tags rise strictly.
pub open spec fn features_sorted(fs: Seq<FeatureMap>) -> bool {
    forall|i: int, j: int| 0 <= i < j < fs.len() ==> fs[i].tag.0 < fs[j].tag.0
}

/// The stage ends never fall and stay within the lookup list.
pub open spec fn stages_ok(stages: Seq<StageMap>, n: int) -> bool {
    &&& forall|i: int| 0 <= i < stages.len() ==> #[trigger] stages[i].last_lookup <= n
    &&& forall|i: int, j: int| 0 <= i < j < stages.len() ==> stages[i].last_lookup <= stages[j].last_lookup
}

/// The compiled map of a shaping plan.
pub struct LayoutMap {
    pub found_script: [bool; 2],
    pub chosen_script: [Option<Tag>; 2],
    pub global_mask: u32,
    pub features: Vec<FeatureMap>,
    pub gsub_lookups: Vec<LookupMap>,
    pub gpos_lookups: Vec<LookupMap>,
    pub gsub_stages: Vec<StageMap>,
    pub gpos_stages: Vec<StageMap>,
}

impl LayoutMap {
    /// Features in tag order, stage ends in order and within the lookups.
    pub open spec fn wf(&self) -> bool {
        &&& features_sorted(self.features@)
        &&& stages_ok(self.gsub_stages@, self.gsub_lookups@.len() as int)
        &&& stages_ok(self.gpos_stages@, self.gpos_lookups@.len() as int)
    }

    /// The position of the feature with tag `tag`.
    pub open spec fn spec_feature_at(&self, tag: Tag) -> Option<int> {
        if exists|i: int| 0 <= i < self.features@.len() && #[trigger] self.features@[i].tag == tag {
            Some(choose|i: int| 0 <= i < self.features@.len() && #[trigger] self.features@[i].tag == tag)
        } else {
            None
        }
    }

    /// The feature with tag `tag`, found by binary search over the
    /// features in tag order.
    pub fn feature(&self, tag: Tag) -> (r: Option<&FeatureMap>)
        requires
            self.wf(),
        ensures
            match self.spec_feature_at(tag) {
                None => r is None,
                Some(i) => r == Some(&self.features@[i]),
            },
    {
        let mut lo: usize = 0;
        let mut hi: usize = self.features.len();
        while lo < hi
            invariant
                lo <= hi <= self.features@.len(),
                self.wf(),
                forall|i: int| 0 <= i < lo ==> #[trigger] self.features@[i].tag.0 < tag.0,
                forall|i: int| hi <= i < self.features@.len() ==> #[trigger] self.features@[i].tag.0 > tag.0,
            decreases hi - lo,
        {
            let mid: usize = lo + (hi - lo) / 2;
            let t: u32 = self.features[mid].tag.0;
            if t == tag.0 {
                proof {
                    assert(self.features@[mid as int].tag == tag);
                    let c = choose|i: int| 0 <= i < self.features@.len() && #[trigger] self.features@[i].tag == tag;
                    if c < mid {
                        assert(self.features@[c].tag.0 < self.features@[mid as int].tag.0);
                    } else if c > mid {
                        assert(self.features@[mid as int].tag.0 < self.features@[c].tag.0);
                    }
                }
                return Some(&self.features[mid]);
            } else if t < tag.0 {
                lo = mid + 1;
            } else {
                hi = mid;
            }
        }
        proof {
            if exists|i: int| 0 <= i < self.features@.len() && #[trigger] self.features@[i].tag == tag {
                let c = choose|i: int| 0 <= i < self.features@.len() && #[trigger] self.features@[i].tag == tag;
                assert(self.features@[c].tag.0 == tag.0);
            }
        }
        None
    }

    /// The mask and shift of the feature with tag `tag`, zero when the map
    /// has no such feature.
    pub fn mask(&self, tag: Tag) -> (r: (u32, u32))
        requires
            self.wf(),
        ensures
            r == match self.spec_feature_at(tag) {
                None => (0u32, 0u32),
                Some(i) => (self.features@[i].mask, self.features@[i].shift),
            },
    {
        match self.feature(tag) {
            Some(f) => (f.mask, f.shift),
            None => (0, 0),
        }
    }

    /// The mask bit for value one of the feature with tag `tag`.
    pub fn one_mask(&self, tag: Tag) -> (r: u32)
        requires
            self.wf(),
        ensures
            r == match self.spec_feature_at(tag) {
                None => 0u32,
                Some(i) => self.features@[i].one_mask,
            },
    {
        match self.feature(tag) {
            Some(f) => f.one_mask,
            None => 0,
        }
    }

    /// The index in `table` of the feature with tag `tag`.
    pub fn feature_index(&self, table: TableIndex, tag: Tag) -> (r: Option<u16>)
        requires
            self.wf(),
        ensures
            r == match self.spec_feature_at(tag) {
                None => None,
                Some(i) => self.features@[i].index[table.spec_idx()],
            },
    {
        match self.feature(tag) {
            Some(f) => f.index[table.idx()],
            None => None,
        }
    }

    pub open spec fn spec_stages(&self, table: TableIndex) -> Seq<StageMap> {
        match table {
            TableIndex::Gsub => self.gsub_stages@,
            TableIndex::Gpos => self.gpos_stages@,
        }
    }

    pub open spec fn spec_lookups(&self, table: TableIndex) -> Seq<LookupMap> {
        match table {
            TableIndex::Gsub => self.gsub_lookups@,
            TableIndex::Gpos => self.gpos_lookups@,
        }
    }

    /// The stages of `table`.
    pub fn stages(&self, table: TableIndex) -> (r: &[StageMap])
        ensures
            r@ == self.spec_stages(table),
    {
        match table {
            TableIndex::Gsub => self.gsub_stages.as_slice(),
            TableIndex::Gpos => self.gpos_stages.as_slice(),
        }
    }

    /// The lookups of stage `stage` of `table`: from the end of the stage
    /// before to its own end (the end of the list past the last stage).
    pub fn stage_lookups(&self, table: TableIndex, stage: usize) -> (r: &[LookupMap])
        requires
            self.wf(),
            stage <= self.spec_stages(table).len(),
        ensures
            r@ == self.spec_lookups(table).subrange(
                if stage == 0 {
                    0
                } else {
                    self.spec_stages(table)[stage - 1].last_lookup as int
                },
                if stage < self.spec_stages(table).len() {
                    self.spec_stages(table)[stage as int].last_lookup as int
                } else {
                    self.spec_lookups(table).len() as int
                },
            ),
    {
        let (stages, lookups) = match table {
            TableIndex::Gsub => (self.gsub_stages.as_slice(), self.gsub_lookups.as_slice()),
            TableIndex::Gpos => (self.gpos_stages.as_slice(), self.gpos_lookups.as_slice()),
        };
        let start: usize = if stage == 0 {
            0
        } else {
            stages[stage - 1].last_lookup
        };
        let end: usize = if stage < stages.len() {
            stages[stage].last_lookup
        } else {
            lookups.len()
        };
        slice_of(lookups, start, end)
    }
}

fn slice_of(s: &[LookupMap], from: usize, to: usize) -> (r: &[LookupMap])
    requires
        from <= to <= s@.len(),
    ensures
        r@ == s@.subrange(from as int, to as int),
{
    &s[from..to]
}

/// What the map builder knows of one layout table: the table, the script
/// and language system chosen in it, its stages so far and its lookup
/// overrides.
pub struct TableState<'a> {
    pub table: Option<&'a LayoutTable<'a>>,
    pub found_script: bool,
    pub script_index: Option<u16>,
    pub chosen_script: Option<Tag>,
    pub lang_index: Option<u16>,
    pub current_stage: usize,
    pub stages: Vec<(usize, Option<usize>)>,
    pub overrides: Vec<(u16, bool)>,
}

impl<'a> TableState<'a> {
    pub open spec fn wf(&self) -> bool {
        self.table matches Some(t) ==> t.wf()
    }

    /// A fresh state for `table`, with the script and language system that
    /// the wanted tags select in it.
    pub open spec fn chosen_for(&self, table: Option<&'a LayoutTable<'a>>, script_tags: Seq<Tag>, language_tags: Seq<Tag>) -> bool {
        &&& self.wf()
        &&& self.table == table
        &&& self.current_stage == 0
        &&& self.stages@.len() == 0
        &&& self.overrides@.len() == 0
        &&& match table {
            None => !self.found_script && self.script_index is None && self.chosen_script is None
                && self.lang_index is None,
            Some(t) => match spec_select_script_from(t.bytes(), t.script_list as int, script_tags, 0) {
                None => !self.found_script && self.script_index is None && self.chosen_script is None
                    && self.lang_index is None,
                Some((found, idx, tag)) => self.found_script == found && self.script_index == Some(idx)
                    && self.chosen_script == Some(tag) && self.lang_index == spec_select_langsys(
                    t.bytes(),
                    t.script_list as int,
                    idx,
                    language_tags,
                ),
            },
        }
    }

    /// Chooses the script and language system of `table` for the wanted
    /// tags.
    fn select(table: Option<&'a LayoutTable<'a>>, script_tags: &[Tag], language_tags: &[Tag]) -> (r: TableState<'a>)
        requires
            table matches Some(t) ==> t.wf(),
        ensures
            r.chosen_for(table, script_tags@, language_tags@),
    {
        let mut st = TableState {
            table,
            found_script: false,
            script_index: None,
            chosen_script: None,
            lang_index: None,
            current_stage: 0,
            stages: Vec::new(),
            overrides: Vec::new(),
        };
        if let Some(t) = table {
            if let Some((found, idx, tag)) = t.select_script(script_tags) {
                st.found_script = found;
                st.script_index = Some(idx);
                st.chosen_script = Some(tag);
                st.lang_index = t.select_langsys(idx, language_tags);
            }
        }
        st
    }
}

/// Collects the features and pauses of a shaping plan, then compiles them
/// into a map.
pub struct MapBuilder<'a> {
    pub gsub: TableState<'a>,
    pub gpos: TableState<'a>,
    pub feature_infos: Vec<FeatureInfo>,
}

impl<'a> MapBuilder<'a> {
    pub open spec fn wf(&self) -> bool {
        self.gsub.wf() && self.gpos.wf()
    }

    pub open spec fn side(&self, t: TableIndex) -> &TableState<'a> {
        match t {
            TableIndex::Gsub => &self.gsub,
            TableIndex::Gpos => &self.gpos,
        }
    }

    /// A builder over the two tables, with the script and language system
    /// of each chosen for the wanted script and language tags.
    pub fn new(
        gsub: Option<&'a LayoutTable<'a>>,
        gpos: Option<&'a LayoutTable<'a>>,
        script_tags: &[Tag],
        language_tags: &[Tag],
    ) -> (b: MapBuilder<'a>)
        requires
            gsub matches Some(t) ==> t.wf(),
            gpos matches Some(t) ==> t.wf(),
        ensures
            b.wf(),
            b.gsub.chosen_for(gsub, script_tags@, language_tags@),
            b.gpos.chosen_for(gpos, script_tags@, language_tags@),
            b.feature_infos@.len() == 0,
    {
        MapBuilder {
            gsub: TableState::select(gsub, script_tags, language_tags),
            gpos: TableState::select(gpos, script_tags, language_tags),
            feature_infos: Vec::new(),
        }
    }

    /// The script chosen in `table`.
    pub fn chosen_script(&self, table: TableIndex) -> (r: Option<Tag>)
        ensures
            r == self.side(table).chosen_script,
    {
        match table {
            TableIndex::Gsub => self.gsub.chosen_script,
            TableIndex::Gpos => self.gpos.chosen_script,
        }
    }

    /// Asks for feature `tag` at `value`, in the current stages; a global
    /// feature has that value by default.
    pub fn add_feature(&mut self, tag: Tag, flags: u32, value: u32)
        ensures
            final(self).gsub == old(self).gsub,
            final(self).gpos == old(self).gpos,
            final(self).feature_infos@ == old(self).feature_infos@.push(
                FeatureInfo {
                    tag,
                    seq: old(self).feature_infos@.len() as usize,
                    max_value: value,
                    flags,
                    default_value: if flags & FF_GLOBAL != 0 {
                        value
                    } else {
                        0
                    },
                    stage: [old(self).gsub.current_stage, old(self).gpos.current_stage],
                },
            ),
    {
        let seq: usize = self.feature_infos.len();
        let default_value: u32 = if flags & FF_GLOBAL != 0 {
            value
        } else {
            0
        };
        let stage: [usize; 2] = [self.gsub.current_stage, self.gpos.current_stage];
        self.feature_infos.push(
            FeatureInfo { tag, seq, max_value: value, flags, default_value, stage },
        );
    }

    /// Turns feature `tag` on everywhere at `value`.
    pub fn enable_feature(&mut self, tag: Tag, flags: u32, value: u32)
        ensures
            final(self).gsub == old(self).gsub,
            final(self).gpos == old(self).gpos,
            final(self).feature_infos@.len() == old(self).feature_infos@.len() + 1,
            final(self).feature_infos@.last().tag == tag,
            final(self).feature_infos@.last().flags == flags | FF_GLOBAL,
            final(self).feature_infos@.last().max_value == value,
            final(self).feature_infos@.last().default_value == value,
            final(self).feature_infos@.drop_last() == old(self).feature_infos@,
    {
        let f: u32 = flags | FF_GLOBAL;
        assert(f & FF_GLOBAL != 0) by (bit_vector)
            requires
                f == flags | 1u32,
        ;
        self.add_feature(tag, f, value);
    }

    /// Turns feature `tag` off everywhere.
    pub fn disable_feature(&mut self, tag: Tag)
        ensures
            final(self).gsub == old(self).gsub,
            final(self).gpos == old(self).gpos,
            final(self).feature_infos@.len() == old(self).feature_infos@.len() + 1,
            final(self).feature_infos@.last().tag == tag,
            final(self).feature_infos@.last().flags == FF_GLOBAL,
            final(self).feature_infos@.last().max_value == 0,
            final(self).feature_infos@.drop_last() == old(self).feature_infos@,
    {
        self.add_feature(tag, FF_GLOBAL, 0);
    }

    /// Forces lookup `index` of `table` on or off.
    pub fn override_lookup(&mut self, table: TableIndex, index: u16, enable: bool)
        ensures
            final(self).feature_infos == old(self).feature_infos,
            final(self).side(table).overrides@ == old(self).side(table).overrides@.push((index, enable)),
            final(self).side(table).stages == old(self).side(table).stages,
            final(self).side(table).current_stage == old(self).side(table).current_stage,
            final(self).side(table).table == old(self).side(table).table,
            table == TableIndex::Gsub ==> final(self).gpos == old(self).gpos,
            table == TableIndex::Gpos ==> final(self).gsub == old(self).gsub,
    {
        match table {
            TableIndex::Gsub => self.gsub.overrides.push((index, enable)),
            TableIndex::Gpos => self.gpos.overrides.push((index, enable)),
        }
    }

    /// Ends the current stage of `table`, with `pause` to run after it.
    pub fn add_pause(&mut self, table: TableIndex, pause: Option<usize>)
        requires
            old(self).side(table).current_stage < usize::MAX,
        ensures
            final(self).feature_infos == old(self).feature_infos,
            final(self).side(table).stages@ == old(self).side(table).stages@.push(
                (old(self).side(table).current_stage, pause),
            ),
            final(self).side(table).current_stage == old(self).side(table).current_stage + 1,
            final(self).side(table).overrides == old(self).side(table).overrides,
            final(self).side(table).table == old(self).side(table).table,
            final(self).side(table).script_index == old(self).side(table).script_index,
            final(self).side(table).lang_index == old(self).side(table).lang_index,
            final(self).side(table).found_script == old(self).side(table).found_script,
            final(self).side(table).chosen_script == old(self).side(table).chosen_script,
            table == TableIndex::Gsub ==> final(self).gpos == old(self).gpos,
            table == TableIndex::Gpos ==> final(self).gsub == old(self).gsub,
    {
        match table {
            TableIndex::Gsub => {
                self.gsub.stages.push((self.gsub.current_stage, pause));
                self.gsub.current_stage = self.gsub.current_stage + 1;
            },
            TableIndex::Gpos => {
                self.gpos.stages.push((self.gpos.current_stage, pause));
                self.gpos.current_stage = self.gpos.current_stage + 1;
            },
        }
    }

    pub fn add_gsub_pause(&mut self, pause: Option<usize>)
        requires
            old(self).gsub.current_stage < usize::MAX,
        ensures
            final(self).feature_infos == old(self).feature_infos,
            final(self).gpos == old(self).gpos,
            final(self).gsub.stages@ == old(self).gsub.stages@.push((old(self).gsub.current_stage, pause)),
            final(self).gsub.current_stage == old(self).gsub.current_stage + 1,
            final(self).gsub.overrides == old(self).gsub.overrides,
            final(self).gsub.table == old(self).gsub.table,
            final(self).gsub.script_index == old(self).gsub.script_index,
            final(self).gsub.lang_index == old(self).gsub.lang_index,
            final(self).gsub.found_script == old(self).gsub.found_script,
            final(self).gsub.chosen_script == old(self).gsub.chosen_script,
    {
        self.add_pause(TableIndex::Gsub, pause);
    }

    pub fn add_gpos_pause(&mut self, pause: Option<usize>)
        requires
            old(self).gpos.current_stage < usize::MAX,
        ensures
            final(self).feature_infos == old(self).feature_infos,
            final(self).gsub == old(self).gsub,
            final(self).gpos.stages@ == old(self).gpos.stages@.push((old(self).gpos.current_stage, pause)),
            final(self).gpos.current_stage == old(self).gpos.current_stage + 1,
            final(self).gpos.overrides == old(self).gpos.overrides,
            final(self).gpos.table == old(self).gpos.table,
            final(self).gpos.script_index == old(self).gpos.script_index,
            final(self).gpos.lang_index == old(self).gpos.lang_index,
            final(self).gpos.found_script == old(self).gpos.found_script,
            final(self).gpos.chosen_script == old(self).gpos.chosen_script,
    {
        self.add_pause(TableIndex::Gpos, pause);
    }
}

/// Sorts before or with: by tag, then by the order the features were
/// added in.
pub open spec fn info_le(a: FeatureInfo, b: FeatureInfo) -> bool {
    a.tag.0 < b.tag.0 || (a.tag.0 == b.tag.0 && a.seq <= b.seq)
}

/// Some feature of `s` has tag value `v`.
pub open spec fn has_tag(s: Seq<FeatureInfo>, v: u32) -> bool {
    exists|i: int| 0 <= i < s.len() && #[trigger] s[i].tag.0 == v
}

proof fn lemma_swap_keeps_multiset<A>(s: Seq<A>, i: int, j: int)
    requires
        0 <= i < s.len(),
        0 <= j < s.len(),
        i != j,
    ensures
        s.update(i, s[j]).update(j, s[i]).to_multiset() == s.to_multiset(),
{
    broadcast use vstd::seq_lib::to_multiset_update;
    broadcast use vstd::multiset::group_multiset_properties;
    broadcast use vstd::multiset::group_multiset_axioms;

    let t = s.update(i, s[j]);
    assert(t[j] == s[j]);
    let m = s.to_multiset();
    assert(s.contains(s[j]));
    assert(s.contains(s[i]));
    vstd::seq_lib::to_multiset_contains(s, s[j]);
    vstd::seq_lib::to_multiset_contains(s, s[i]);
    assert(m.insert(s[j]).remove(s[i]).insert(s[i]).remove(s[j]) =~= m);
}

/// Sorts feature requests by tag, keeping the order they were added in
/// among those with one tag.
fn sort_infos(v: &mut Vec<FeatureInfo>)
    ensures
        final(v)@.to_multiset() == old(v)@.to_multiset(),
        final(v)@.len() == old(v)@.len(),
        forall|i: int, j: int| 0 <= i < j < final(v)@.len() ==> info_le(final(v)@[i], final(v)@[j]),
{
    let n: usize = v.len();
    if n < 2 {
        return;
    }
    let mut i: usize = 1;
    while i < n
        invariant
            1 <= i <= n,
            n == v@.len(),
            v@.to_multiset() == old(v)@.to_multiset(),
            forall|a: int, b: int| 0 <= a < b < i ==> info_le(v@[a], v@[b]),
        decreases n - i,
    {
        let mut j: usize = i;
        while j > 0 && !info_le_exec(&v[j - 1], &v[j])
            invariant
                0 <= j <= i < n,
                n == v@.len(),
                v@.to_multiset() == old(v)@.to_multiset(),
                forall|a: int, b: int| 0 <= a < b <= i && b != j ==> info_le(v@[a], v@[b]),
                forall|b: int| j < b <= i ==> info_le(v@[j as int], #[trigger] v@[b]),
            decreases j,
        {
            let ghost before = v@;
            let x: FeatureInfo = v[j - 1];
            let y: FeatureInfo = v[j];
            proof {
                lemma_swap_keeps_multiset(v@, j - 1, j as int);
            }
            v.set(j - 1, y);
            v.set(j, x);
            assert(v@ == before.update(j - 1, before[j as int]).update(j as int, before[j - 1]));
            j = j - 1;
        }
        assert forall|a: int, b: int| 0 <= a < b <= i implies info_le(v@[a], v@[b]) by {
            if b == j && a < j - 1 {
                assert(info_le(v@[a], v@[j - 1]));
            }
        }
        i = i + 1;
    }
}

fn info_le_exec(a: &FeatureInfo, b: &FeatureInfo) -> (r: bool)
    ensures
        r == info_le(*a, *b),
{
    a.tag.0 < b.tag.0 || (a.tag.0 == b.tag.0 && a.seq <= b.seq)
}

/// Two sequences with one multiset hold the same tags.
proof fn lemma_multiset_same_tags(s: Seq<FeatureInfo>, t: Seq<FeatureInfo>, v: u32)
    requires
        s.to_multiset() == t.to_multiset(),
    ensures
        has_tag(s, v) <==> has_tag(t, v),
{
    if has_tag(s, v) {
        let i = choose|i: int| 0 <= i < s.len() && #[trigger] s[i].tag.0 == v;
        assert(s.contains(s[i]));
        vstd::seq_lib::to_multiset_contains(s, s[i]);
        vstd::seq_lib::to_multiset_contains(t, s[i]);
        let k = choose|k: int| 0 <= k < t.len() && t[k] == s[i];
        assert(t[k].tag.0 == v);
    }
    if has_tag(t, v) {
        let i = choose|i: int| 0 <= i < t.len() && #[trigger] t[i].tag.0 == v;
        assert(t.contains(t[i]));
        vstd::seq_lib::to_multiset_contains(t, t[i]);
        vstd::seq_lib::to_multiset_contains(s, t[i]);
        let k = choose|k: int| 0 <= k < s.len() && s[k] == t[i];
        assert(s[k].tag.0 == v);
    }
}

/// A later request `cur` for the feature of `e`, merged into it: a global
/// request takes over the maximum and default values and sets the global
/// flag; any other widens the maximum and clears the flag. Fallback flags
/// add up and the earlier stage of each table wins.
pub open spec fn merge_info(e: FeatureInfo, cur: FeatureInfo) -> FeatureInfo {
    let global = cur.flags & FF_GLOBAL != 0;
    let flags: u32 = if global {
        e.flags | FF_GLOBAL
    } else {
        e.flags & !FF_GLOBAL
    };
    FeatureInfo {
        tag: e.tag,
        seq: e.seq,
        max_value: if global {
            cur.max_value
        } else if e.max_value > cur.max_value {
            e.max_value
        } else {
            cur.max_value
        },
        flags: flags | (cur.flags & FF_HAS_FALLBACK),
        default_value: if global {
            cur.default_value
        } else {
            e.default_value
        },
        stage: [
            if e.stage[0] < cur.stage[0] {
                e.stage[0]
            } else {
                cur.stage[0]
            },
            if e.stage[1] < cur.stage[1] {
                e.stage[1]
            } else {
                cur.stage[1]
            },
        ],
    }
}

/// The requests of `s`, sorted by tag, with each run of one tag merged
/// into its first request from left to right.
pub open spec fn dedup_sorted(s: Seq<FeatureInfo>) -> Seq<FeatureInfo>
    decreases s.len(),
{
    if s.len() <= 1 {
        s
    } else {
        let d = dedup_sorted(s.drop_last());
        if s.last().tag.0 != d.last().tag.0 {
            d.push(s.last())
        } else {
            d.update(d.len() - 1, merge_info(d.last(), s.last()))
        }
    }
}

/// `d` is what merging the requests `s` gives: `s` put in the order of
/// `info_le`, then each run of one tag merged.
pub open spec fn is_dedup_of(d: Seq<FeatureInfo>, s: Seq<FeatureInfo>) -> bool {
    exists|sorted: Seq<FeatureInfo>|
        #![trigger dedup_sorted(sorted)]
        sorted.to_multiset() == s.to_multiset() && sorted.len() == s.len() && (forall|i: int, j: int|
            0 <= i < j < sorted.len() ==> info_le(sorted[i], sorted[j])) && d == dedup_sorted(sorted)
}

proof fn lemma_dedup_sorted_len(s: Seq<FeatureInfo>)
    ensures
        s.len() >= 1 ==> 1 <= dedup_sorted(s).len() <= s.len(),
        s.len() == 0 ==> dedup_sorted(s).len() == 0,
    decreases s.len(),
{
    if s.len() > 1 {
        lemma_dedup_sorted_len(s.drop_last());
    }
}

impl<'a> MapBuilder<'a> {
    /// Merges the requests for each feature into one, in tag order: a
    /// global request overrides what came before it, any other one widens
    /// the maximum value and clears the global flag; fallback flags add up
    /// and the earliest stage wins.
    pub fn dedup(&mut self)
        ensures
            final(self).gsub == old(self).gsub,
            final(self).gpos == old(self).gpos,
            forall|a: int, b: int|
                0 <= a < b < final(self).feature_infos@.len() ==> final(self).feature_infos@[a].tag.0
                    < final(self).feature_infos@[b].tag.0,
            forall|v: u32| has_tag(final(self).feature_infos@, v) <==> has_tag(old(self).feature_infos@, v),
            is_dedup_of(final(self).feature_infos@, old(self).feature_infos@),
    {
        if self.feature_infos.len() == 0 {
            assert(self.feature_infos@ == dedup_sorted(self.feature_infos@));
            return;
        }
        let mut infos: Vec<FeatureInfo> = Vec::new();
        core::mem::swap(&mut infos, &mut self.feature_infos);
        let ghost original = infos@;
        sort_infos(&mut infos);
        let ghost sorted = infos@;
        proof {
            assert forall|v: u32| has_tag(sorted, v) <==> has_tag(original, v) by {
                lemma_multiset_same_tags(sorted, original, v);
            }
        }
        let n: usize = infos.len();
        let mut j: usize = 0;
        let mut i: usize = 1;
        while i < n
            invariant
                1 <= i <= n,
                j < i,
                n == infos@.len(),
                n == sorted.len(),
                forall|a: int, b: int| 0 <= a < b < n ==> info_le(sorted[a], sorted[b]),
                forall|k: int| i <= k < n ==> #[trigger] infos@[k] == sorted[k],
                forall|a: int, b: int| 0 <= a < b <= j ==> infos@[a].tag.0 < infos@[b].tag.0,
                infos@[j as int].tag.0 == sorted[i - 1].tag.0,
                forall|k: int| 0 <= k <= j ==> has_tag(sorted, (#[trigger] infos@[k]).tag.0),
                forall|m: int| #![trigger sorted[m]]
                    0 <= m < i ==> exists|k: int| 0 <= k <= j && #[trigger] infos@[k].tag.0 == sorted[m].tag.0,
                infos@.subrange(0, j + 1) == dedup_sorted(sorted.subrange(0, i as int)),
            decreases n - i,
        {
            let cur: FeatureInfo = infos[i];
            let ghost before = infos@;
            proof {
                let s2 = sorted.subrange(0, i + 1);
                assert(s2.drop_last() =~= sorted.subrange(0, i as int));
                assert(s2.last() == cur);
                lemma_dedup_sorted_len(sorted.subrange(0, i as int));
                assert(dedup_sorted(sorted.subrange(0, i as int)).last() == before[j as int]);
            }
            if cur.tag.0 != infos[j].tag.0 {
                assert(info_le(sorted[i - 1], sorted[i as int]));
                j = j + 1;
                infos.set(j, cur);
                assert(infos@.subrange(0, j + 1) =~= before.subrange(0, j as int).push(cur));
                assert(has_tag(sorted, infos@[j as int].tag.0)) by {
                    assert(sorted[i as int].tag.0 == infos@[j as int].tag.0);
                }
                assert forall|m: int| #![trigger sorted[m]]
                    0 <= m < i + 1 implies exists|k: int| 0 <= k <= j && #[trigger] infos@[k].tag.0 == sorted[m].tag.0 by {
                    if m < i {
                        let k0 = choose|k: int| 0 <= k <= j - 1 && #[trigger] before[k].tag.0 == sorted[m].tag.0;
                        assert(infos@[k0].tag.0 == sorted[m].tag.0);
                    } else {
                        assert(infos@[j as int].tag.0 == sorted[m].tag.0);
                    }
                }
            } else {
                let mut e: FeatureInfo = infos[j];
                if cur.flags & FF_GLOBAL != 0 {
                    e.flags = e.flags | FF_GLOBAL;
                    e.max_value = cur.max_value;
                    e.default_value = cur.default_value;
                } else {
                    e.flags = e.flags & !FF_GLOBAL;
                    e.max_value = if e.max_value > cur.max_value {
                        e.max_value
                    } else {
                        cur.max_value
                    };
                }
                e.flags = e.flags | (cur.flags & FF_HAS_FALLBACK);
                let s0: usize = if e.stage[0] < cur.stage[0] {
                    e.stage[0]
                } else {
                    cur.stage[0]
                };
                let s1: usize = if e.stage[1] < cur.stage[1] {
                    e.stage[1]
                } else {
                    cur.stage[1]
                };
                e.stage = [s0, s1];
                assert(e == merge_info(before[j as int], cur));
                infos.set(j, e);
                assert(infos@.subrange(0, j + 1) =~= before.subrange(0, j + 1).update(j as int, e));
                assert forall|m: int| #![trigger sorted[m]]
                    0 <= m < i + 1 implies exists|k: int| 0 <= k <= j && #[trigger] infos@[k].tag.0 == sorted[m].tag.0 by {
                    if m < i {
                        let k0 = choose|k: int| 0 <= k <= j && #[trigger] before[k].tag.0 == sorted[m].tag.0;
                        assert(infos@[k0].tag.0 == sorted[m].tag.0);
                    } else {
                        assert(infos@[j as int].tag.0 == sorted[m].tag.0);
                    }
                }
            }
            i = i + 1;
        }
        let ghost pre = infos@;
        infos.truncate(j + 1);
        assert(infos@ == pre.subrange(0, j + 1));
        assert(sorted.subrange(0, n as int) =~= sorted);
        assert(infos@ == dedup_sorted(sorted));
        assert(sorted.to_multiset() == original.to_multiset() && sorted.len() == original.len());
        assert forall|v: u32| has_tag(infos@, v) <==> has_tag(sorted, v) by {
            if has_tag(infos@, v) {
                let k = choose|k: int| 0 <= k < infos@.len() && #[trigger] infos@[k].tag.0 == v;
                assert(infos@[k] == pre[k]);
                assert(has_tag(sorted, pre[k].tag.0));
            }
            if has_tag(sorted, v) {
                let m = choose|m: int| 0 <= m < sorted.len() && #[trigger] sorted[m].tag.0 == v;
                assert(sorted[m].tag.0 == v);
                let k = choose|k: int| 0 <= k <= j && #[trigger] pre[k].tag.0 == sorted[m].tag.0;
                assert(infos@[k] == pre[k]);
                assert(infos@[k].tag.0 == v);
            }
        }
        self.feature_infos = infos;
    }
}

/// Bits `lo .. hi` of a mask.
pub open spec fn range_mask(lo: u32, hi: u32) -> u32 {
    ((1u32 << hi) - (1u32 << lo)) as u32
}

proof fn lemma_range_mask_disjoint(s1: u32, e1: u32, s2: u32, e2: u32)
    requires
        s1 <= e1 <= s2 <= e2 <= 30,
    ensures
        range_mask(s1, e1) & range_mask(s2, e2) == 0,
        range_mask(s1, e1) & GLOBAL_BIT_MASK == 0,
        range_mask(s2, e2) & GLOBAL_BIT_MASK == 0,
{
    assert(((1u32 << e1) - (1u32 << s1)) as u32 & ((1u32 << e2) - (1u32 << s2)) as u32 == 0) by (bit_vector)
        requires
            s1 <= e1 <= s2 <= e2 <= 30,
    ;
    assert(((1u32 << e1) - (1u32 << s1)) as u32 & 0x8000_0000u32 == 0 && ((1u32 << e2) - (1u32 << s2)) as u32
        & 0x8000_0000u32 == 0) by (bit_vector)
        requires
            s1 <= e1 <= 30,
            s2 <= e2 <= 30,
    ;
}

/// The mask bits of two compiled features meet only where both are the
/// shared global bit.
pub open spec fn masks_apart(fs: Seq<FeatureMap>) -> bool {
    forall|i: int, j: int|
        0 <= i < j < fs.len() && (fs[i].mask & fs[j].mask) != 0 ==> fs[i].mask == GLOBAL_BIT_MASK
            && fs[j].mask == GLOBAL_BIT_MASK
}

/// The least width from `b` up that holds `v`, at most eight bits.
pub open spec fn spec_bits_from(v: u32, b: u32) -> u32
    decreases MAX_BITS - b,
{
    if b >= MAX_BITS || (v >> b) == 0 {
        b
    } else {
        spec_bits_from(v, (b + 1) as u32)
    }
}

/// The number of bits needed for values up to `v`, at most eight.
fn bits_for(v: u32) -> (r: u32)
    requires
        v >= 1,
    ensures
        1 <= r <= MAX_BITS,
        r == spec_bits_from(v, 1),
{
    let mut b: u32 = 1;
    while b < MAX_BITS && (v >> b) != 0
        invariant
            1 <= b <= MAX_BITS,
            spec_bits_from(v, b) == spec_bits_from(v, 1),
        decreases MAX_BITS - b,
    {
        b = b + 1;
    }
    b
}

impl<'a> TableState<'a> {
    /// The feature `find_feature` answers with: that of the chosen language
    /// system, or, for a global search, the first of the feature list.
    pub open spec fn spec_find_feature(&self, tag: Tag, global_search: bool) -> Option<u16> {
        match self.table {
            None => None,
            Some(t) => {
                let direct = match self.script_index {
                    None => None,
                    Some(s) => spec_first_feature(
                        t.bytes(),
                        t.feature_list as int,
                        spec_feature_indices(t.bytes(), t.script_list as int, s, self.lang_index),
                        tag,
                        0,
                    ),
                };
                match direct {
                    Some(i) => Some(i),
                    None => if global_search {
                        match spec_u16(t.bytes(), t.feature_list as int) {
                            None => None,
                            Some(count) => spec_first_feature_record(
                                t.bytes(),
                                t.feature_list as int,
                                tag,
                                count as int,
                                0,
                            ),
                        }
                    } else {
                        None
                    },
                }
            },
        }
    }

    fn find_feature(&self, tag: Tag, global_search: bool) -> (r: Option<u16>)
        requires
            self.wf(),
        ensures
            r == self.spec_find_feature(tag, global_search),
    {
        let table = match self.table {
            Some(t) => t,
            None => return None,
        };
        let direct: Option<u16> = match self.script_index {
            Some(s) => table.find_feature(s, self.lang_index, tag),
            None => None,
        };
        match direct {
            Some(i) => Some(i),
            None => if global_search {
                table.find_feature_globally(tag)
            } else {
                None
            },
        }
    }

    /// The required feature of the chosen language system.
    pub open spec fn spec_required(&self) -> Option<u16> {
        match (self.table, self.script_index) {
            (Some(t), Some(s)) => spec_required_feature(t.bytes(), t.script_list as int, s, self.lang_index),
            _ => None,
        }
    }

    fn required(&self) -> (r: Option<u16>)
        requires
            self.wf(),
        ensures
            r == self.spec_required(),
    {
        match (self.table, self.script_index) {
            (Some(t), Some(s)) => t.required_feature(s, self.lang_index),
            _ => None,
        }
    }

    /// Whether feature record `feature` of the table has tag `tag`.
    fn feature_tag_is(&self, feature: u16, tag: Tag) -> (r: bool)
        requires
            self.wf(),
        ensures
            r == match self.table {
                None => false,
                Some(t) => spec_feature_tag(t.bytes(), t.feature_list as int, feature) == Some(tag),
            },
    {
        match self.table {
            None => false,
            Some(t) => match t.feature_tag(feature) {
                Some(x) => x == tag,
                None => false,
            },
        }
    }
}

/// Whether feature record `feature` of the side's table has tag `tag`.
pub open spec fn spec_tag_is(side: TableState, feature: u16, tag: Tag) -> bool {
    match side.table {
        None => false,
        Some(t) => spec_feature_tag(t.bytes(), t.feature_list as int, feature) == Some(tag),
    }
}

/// The state of feature compilation: the features so far, the stage of
/// each table's required feature, the mask of default values and the next
/// free mask bit.
pub type CompileState = (Seq<FeatureMap>, usize, usize, u32, u32);

/// One merged request `info` taken into the compilation: a request with
/// maximum value zero, or one whose bits no longer fit below the global
/// bit, is dropped; so is one that neither table has and that has no
/// fallback, though the stage of a required feature with its tag is kept.
/// Any other gets the global bit (a global request with value one) or the
/// next free bits, and its default value enters the global mask.
pub open spec fn compile_step(
    st: CompileState,
    info: FeatureInfo,
    gsub: TableState,
    gpos: TableState,
    req0: Option<u16>,
    req1: Option<u16>,
) -> CompileState {
    let (out, rs0, rs1, gm, nb) = st;
    let global_one = info.flags & FF_GLOBAL != 0 && info.max_value == 1;
    let bits: u32 = if global_one {
        0
    } else {
        spec_bits_from(info.max_value, 1)
    };
    if info.max_value == 0 || nb + bits >= GLOBAL_BIT_SHIFT {
        st
    } else {
        let rs0n = match req0 {
            Some(r) => if spec_tag_is(gsub, r, info.tag) {
                info.stage[0]
            } else {
                rs0
            },
            None => rs0,
        };
        let rs1n = match req1 {
            Some(r) => if spec_tag_is(gpos, r, info.tag) {
                info.stage[1]
            } else {
                rs1
            },
            None => rs1,
        };
        let search = info.flags & FF_GLOBAL_SEARCH != 0;
        let i0 = gsub.spec_find_feature(info.tag, search);
        let i1 = gpos.spec_find_feature(info.tag, search);
        if i0 is None && i1 is None && info.flags & FF_HAS_FALLBACK == 0 {
            (out, rs0n, rs1n, gm, nb)
        } else {
            let shift: u32 = if global_one {
                GLOBAL_BIT_SHIFT
            } else {
                nb
            };
            let mask: u32 = if global_one {
                GLOBAL_BIT_MASK
            } else {
                range_mask(nb, (nb + bits) as u32)
            };
            let f = FeatureMap {
                tag: info.tag,
                index: [i0, i1],
                stage: info.stage,
                shift,
                mask,
                one_mask: (1u32 << shift) & mask,
                auto_zwnj: info.flags & FF_MANUAL_ZWNJ == 0,
                auto_zwj: info.flags & FF_MANUAL_ZWJ == 0,
                random: info.flags & FF_RANDOM != 0,
                per_syllable: info.flags & FF_PER_SYLLABLE != 0,
            };
            if global_one {
                (out.push(f), rs0n, rs1n, gm, nb)
            } else {
                (out.push(f), rs0n, rs1n, gm | ((info.default_value << nb) & mask), (nb + bits) as u32)
            }
        }
    }
}

/// Feature compilation over the first `n` merged requests of `infos`.
pub open spec fn compile_fold(
    infos: Seq<FeatureInfo>,
    n: int,
    gsub: TableState,
    gpos: TableState,
    req0: Option<u16>,
    req1: Option<u16>,
) -> CompileState
    decreases n,
{
    if n <= 0 {
        (Seq::empty(), 0, 0, GLOBAL_BIT_MASK, FIRST_FREE_BIT)
    } else {
        compile_step(compile_fold(infos, n - 1, gsub, gpos, req0, req1), infos[n - 1], gsub, gpos, req0, req1)
    }
}

impl<'a> MapBuilder<'a> {
    /// Merges the feature requests and gives each feature that a table has
    /// (or that has a fallback) its mask bits: global features with value
    /// one share the top bit, the others take fresh bits in tag order.
    /// Returns the features in tag order, the stage of each table's
    /// required feature, and the mask of the default values.
    #[verifier::spinoff_prover]
    #[verifier::rlimit(40)]
    fn compile_features(&mut self) -> (r: (Vec<FeatureMap>, [usize; 2], u32))
        requires
            old(self).wf(),
        ensures
            final(self).wf(),
            final(self).gsub == old(self).gsub,
            final(self).gpos == old(self).gpos,
            features_sorted(r.0@),
            masks_apart(r.0@),
            forall|k: int|
                0 <= k < r.0@.len() ==> (#[trigger] r.0@[k]).one_mask == (1u32 << r.0@[k].shift) & r.0@[k].mask
                    && r.0@[k].shift <= GLOBAL_BIT_SHIFT,
            r.2 & GLOBAL_BIT_MASK == GLOBAL_BIT_MASK,
            is_dedup_of(final(self).feature_infos@, old(self).feature_infos@),
            ({
                let c = compile_fold(
                    final(self).feature_infos@,
                    final(self).feature_infos@.len() as int,
                    final(self).gsub,
                    final(self).gpos,
                    old(self).gsub.spec_required(),
                    old(self).gpos.spec_required(),
                );
                r.0@ == c.0 && r.1 == [c.1, c.2] && r.2 == c.3
            }),
    {
        let req0: Option<u16> = self.gsub.required();
        let req1: Option<u16> = self.gpos.required();
        self.dedup();
        let mut out: Vec<FeatureMap> = Vec::new();
        let mut required_stage0: usize = 0;
        let mut required_stage1: usize = 0;
        let mut global_mask: u32 = GLOBAL_BIT_MASK;
        let mut next_bit: u32 = FIRST_FREE_BIT;
        let ghost mut ends: Seq<u32> = Seq::empty();
        assert(0x8000_0000u32 & 0x8000_0000u32 == 0x8000_0000u32) by (bit_vector);
        let n: usize = self.feature_infos.len();
        let mut k: usize = 0;
        while k < n
            invariant
                k <= n,
                n == self.feature_infos@.len(),
                self.wf(),
                FIRST_FREE_BIT <= next_bit <= 30,
                ends.len() == out@.len(),
                global_mask & GLOBAL_BIT_MASK == GLOBAL_BIT_MASK,
                forall|a: int, b: int|
                    0 <= a < b < n ==> self.feature_infos@[a].tag.0 < self.feature_infos@[b].tag.0,
                forall|a: int, m: int|
                    0 <= a < out@.len() && k <= m < n ==> (#[trigger] out@[a]).tag.0 < (
                    #[trigger] self.feature_infos@[m]).tag.0,
                forall|a: int, b: int| 0 <= a < b < out@.len() ==> out@[a].tag.0 < out@[b].tag.0,
                forall|a: int|
                    0 <= a < out@.len() ==> (#[trigger] out@[a]).one_mask == (1u32 << out@[a].shift) & out@[a].mask
                        && out@[a].shift <= GLOBAL_BIT_SHIFT,
                forall|a: int|
                    0 <= a < out@.len() ==> ((#[trigger] out@[a]).shift == GLOBAL_BIT_SHIFT && out@[a].mask
                        == GLOBAL_BIT_MASK) || (FIRST_FREE_BIT <= out@[a].shift < ends[a] <= next_bit
                        && out@[a].mask == range_mask(out@[a].shift, ends[a])),
                forall|a: int, b: int|
                    0 <= a < b < out@.len() && out@[a].shift != GLOBAL_BIT_SHIFT && out@[b].shift
                        != GLOBAL_BIT_SHIFT ==> ends[a] <= out@[b].shift,
                req0 == self.gsub.spec_required(),
                req1 == self.gpos.spec_required(),
                (out@, required_stage0, required_stage1, global_mask, next_bit) == compile_fold(
                    self.feature_infos@,
                    k as int,
                    self.gsub,
                    self.gpos,
                    req0,
                    req1,
                ),
            decreases n - k,
        {
            let info: FeatureInfo = self.feature_infos[k];
            let ghost prev_state = (out@, required_stage0, required_stage1, global_mask, next_bit);
            assert(compile_fold(self.feature_infos@, k + 1, self.gsub, self.gpos, req0, req1) == compile_step(
                prev_state,
                info,
                self.gsub,
                self.gpos,
                req0,
                req1,
            ));
            let global_one: bool = info.flags & FF_GLOBAL != 0 && info.max_value == 1;
            if info.max_value == 0 {
                k = k + 1;
                continue;
            }
            let bits_needed: u32 = if global_one {
                0
            } else {
                bits_for(info.max_value)
            };
            if next_bit + bits_needed >= GLOBAL_BIT_SHIFT {
                k = k + 1;
                continue;
            }
            let mut index0: Option<u16> = None;
            let mut index1: Option<u16> = None;
            let mut found: bool = false;
            let global_search: bool = info.flags & FF_GLOBAL_SEARCH != 0;
            if let Some(r) = req0 {
                if self.gsub.feature_tag_is(r, info.tag) {
                    required_stage0 = info.stage[0];
                }
            }
            if let Some(i) = self.gsub.find_feature(info.tag, global_search) {
                index0 = Some(i);
                found = true;
            }
            if let Some(r) = req1 {
                if self.gpos.feature_tag_is(r, info.tag) {
                    required_stage1 = info.stage[1];
                }
            }
            if let Some(i) = self.gpos.find_feature(info.tag, global_search) {
                index1 = Some(i);
                found = true;
            }
            if !found && info.flags & FF_HAS_FALLBACK == 0 {
                k = k + 1;
                continue;
            }
            let shift: u32;
            let mask: u32;
            if global_one {
                shift = GLOBAL_BIT_SHIFT;
                mask = GLOBAL_BIT_MASK;
                proof {
                    ends = ends.push(0u32);
                }
            } else {
                shift = next_bit;
                let hi: u32 = next_bit + bits_needed;
                assert((1u32 << hi) >= (1u32 << shift)) by (bit_vector)
                    requires
                        shift <= hi <= 30,
                ;
                mask = (1u32 << hi) - (1u32 << shift);
                proof {
                    ends = ends.push(hi);
                }
                next_bit = hi;
                let dv: u32 = info.default_value << shift;
                let ghost gm = global_mask;
                global_mask = global_mask | (dv & mask);
                assert(global_mask & 0x8000_0000u32 == 0x8000_0000u32) by (bit_vector)
                    requires
                        gm & 0x8000_0000u32 == 0x8000_0000u32,
                        global_mask == gm | (dv & mask),
                ;
            }
            let one_mask: u32 = (1u32 << shift) & mask;
            let ghost before = out@;
            out.push(
                FeatureMap {
                    tag: info.tag,
                    index: [index0, index1],
                    stage: info.stage,
                    shift,
                    mask,
                    one_mask,
                    auto_zwnj: info.flags & FF_MANUAL_ZWNJ == 0,
                    auto_zwj: info.flags & FF_MANUAL_ZWJ == 0,
                    random: info.flags & FF_RANDOM != 0,
                    per_syllable: info.flags & FF_PER_SYLLABLE != 0,
                },
            );
            proof {
                assert forall|a: int, b: int| 0 <= a < b < out@.len() implies out@[a].tag.0 < out@[b].tag.0 by {
                    if b == out@.len() - 1 {
                        assert(out@[a] == before[a]);
                        assert(before[a].tag.0 < self.feature_infos@[k as int].tag.0);
                    }
                }
                assert forall|a: int, m: int|
                    0 <= a < out@.len() && k + 1 <= m < n implies (#[trigger] out@[a]).tag.0 < (
                    #[trigger] self.feature_infos@[m]).tag.0 by {
                    assert(self.feature_infos@[k as int].tag.0 < self.feature_infos@[m].tag.0);
                    if a < before.len() {
                        assert(out@[a] == before[a]);
                        assert(before[a].tag.0 < self.feature_infos@[k as int].tag.0);
                    }
                }
            }
            k = k + 1;
        }
        proof {
            assert forall|i: int, j: int|
                0 <= i < j < out@.len() && (out@[i].mask & out@[j].mask) != 0 implies out@[i].mask
                    == GLOBAL_BIT_MASK && out@[j].mask == GLOBAL_BIT_MASK by {
                let gi = out@[i].shift == GLOBAL_BIT_SHIFT;
                let gj = out@[j].shift == GLOBAL_BIT_SHIFT;
                if !gi && !gj {
                    lemma_range_mask_disjoint(out@[i].shift, ends[i], out@[j].shift, ends[j]);
                } else if gi && !gj {
                    lemma_range_mask_disjoint(out@[j].shift, ends[j], ends[j], ends[j]);
                    let mj: u32 = out@[j].mask;
                    assert(mj & 0x8000_0000u32 == 0x8000_0000u32 & mj) by (bit_vector);
                } else if !gi && gj {
                    lemma_range_mask_disjoint(out@[i].shift, ends[i], ends[i], ends[i]);
                }
            }
        }
        (out, [required_stage0, required_stage1], global_mask)
    }
}

/// The lookup indices of `ls` below `count`, in order.
pub open spec fn below(ls: Seq<u16>, count: u16) -> Seq<u16>
    decreases ls.len(),
{
    if ls.len() == 0 {
        Seq::empty()
    } else if ls.last() < count {
        below(ls.drop_last(), count).push(ls.last())
    } else {
        below(ls.drop_last(), count)
    }
}

/// Appends the lookups of `feature` in `table` that the table has, each
/// with the given mask and flags.
fn push_lookups(
    out: &mut Vec<LookupMap>,
    table: &LayoutTable,
    feature: u16,
    mask: u32,
    auto_zwnj: bool,
    auto_zwj: bool,
    random: bool,
    per_syllable: bool,
)
    requires
        table.wf(),
    ensures
        final(out)@.len() >= old(out)@.len(),
        final(out)@.subrange(0, old(out)@.len() as int) == old(out)@,
        final(out)@.subrange(old(out)@.len() as int, final(out)@.len() as int).map_values(
            |l: LookupMap| l.index,
        ) == below(
            spec_feature_lookups(table.bytes(), table.feature_list as int, feature, None),
            spec_u16_or_zero(table.bytes(), table.lookup_list as int) as u16,
        ),
        forall|k: int|
            old(out)@.len() <= k < final(out)@.len() ==> (#[trigger] final(out)@[k]).mask == mask
                && final(out)@[k].auto_zwnj == auto_zwnj && final(out)@[k].auto_zwj == auto_zwj
                && final(out)@[k].random == random && final(out)@[k].per_syllable == per_syllable
                && final(out)@[k].index < spec_u16_or_zero(table.bytes(), table.lookup_list as int),
{
    let count: u16 = table.lookup_count();
    let ls: Vec<u16> = table.feature_lookups(feature, None);
    let ghost start = out@.len();
    let mut k: usize = 0;
    while k < ls.len()
        invariant
            k <= ls@.len(),
            table.wf(),
            count == spec_u16_or_zero(table.bytes(), table.lookup_list as int),
            out@.len() >= start,
            out@.subrange(0, start as int) == old(out)@,
            start == old(out)@.len(),
            out@.subrange(start as int, out@.len() as int).map_values(|l: LookupMap| l.index) == below(
                ls@.take(k as int),
                count,
            ),
            forall|m: int|
                start <= m < out@.len() ==> (#[trigger] out@[m]).mask == mask && out@[m].auto_zwnj
                    == auto_zwnj && out@[m].auto_zwj == auto_zwj && out@[m].random == random
                    && out@[m].per_syllable == per_syllable && out@[m].index < count,
        decreases ls@.len() - k,
    {
        let index: u16 = ls[k];
        let ghost prev = out@;
        assert(ls@.take(k + 1).drop_last() =~= ls@.take(k as int));
        assert(ls@.take(k + 1).last() == index);
        if index < count {
            out.push(LookupMap { index, mask, auto_zwnj, auto_zwj, random, per_syllable });
            assert(out@.subrange(0, start as int) =~= prev.subrange(0, start as int));
            assert(out@.subrange(start as int, out@.len() as int) =~= prev.subrange(
                start as int,
                prev.len() as int,
            ).push(out@.last()));
        }
        k = k + 1;
    }
    assert(ls@.take(ls@.len() as int) =~= ls@);
}

/// Some lookup of `s` at or after `from` has index `v`.
pub open spec fn has_index_from(s: Seq<LookupMap>, from: int, v: u16) -> bool {
    exists|i: int| from <= i < s.len() && #[trigger] s[i].index == v
}

proof fn lemma_tail_multiset_indices(s: Seq<LookupMap>, t: Seq<LookupMap>, from: int, v: u16)
    requires
        0 <= from <= s.len(),
        s.len() == t.len(),
        s.subrange(from, s.len() as int).to_multiset() == t.subrange(from, t.len() as int).to_multiset(),
    ensures
        has_index_from(s, from, v) <==> has_index_from(t, from, v),
{
    let a = s.subrange(from, s.len() as int);
    let b = t.subrange(from, t.len() as int);
    if has_index_from(s, from, v) {
        let i = choose|i: int| from <= i < s.len() && #[trigger] s[i].index == v;
        assert(a[i - from] == s[i]);
        assert(a.contains(s[i]));
        vstd::seq_lib::to_multiset_contains(a, s[i]);
        vstd::seq_lib::to_multiset_contains(b, s[i]);
        let k = choose|k: int| 0 <= k < b.len() && b[k] == s[i];
        assert(t[k + from] == b[k]);
    }
    if has_index_from(t, from, v) {
        let i = choose|i: int| from <= i < t.len() && #[trigger] t[i].index == v;
        assert(b[i - from] == t[i]);
        assert(b.contains(t[i]));
        vstd::seq_lib::to_multiset_contains(b, t[i]);
        vstd::seq_lib::to_multiset_contains(a, t[i]);
        let k = choose|k: int| 0 <= k < a.len() && a[k] == t[i];
        assert(s[k + from] == a[k]);
    }
}

/// Sorts `v[from ..]` by lookup index, keeping the order of equal ones.
fn sort_lookups_from(v: &mut Vec<LookupMap>, from: usize)
    requires
        from <= old(v)@.len(),
    ensures
        final(v)@.len() == old(v)@.len(),
        final(v)@.subrange(0, from as int) == old(v)@.subrange(0, from as int),
        final(v)@.subrange(from as int, final(v)@.len() as int).to_multiset() == old(v)@.subrange(
            from as int,
            old(v)@.len() as int,
        ).to_multiset(),
        forall|i: int, j: int| from <= i < j < final(v)@.len() ==> final(v)@[i].index <= final(v)@[j].index,
{
    let n: usize = v.len();
    if n - from < 2 {
        return;
    }
    let mut i: usize = from + 1;
    while i < n
        invariant
            from < i <= n,
            n == v@.len(),
            v@.subrange(0, from as int) == old(v)@.subrange(0, from as int),
            v@.subrange(from as int, n as int).to_multiset() == old(v)@.subrange(from as int, n as int).to_multiset(),
            forall|a: int, b: int| from <= a < b < i ==> v@[a].index <= v@[b].index,
        decreases n - i,
    {
        let mut j: usize = i;
        while j > from && v[j - 1].index > v[j].index
            invariant
                from <= j <= i < n,
                n == v@.len(),
                v@.subrange(0, from as int) == old(v)@.subrange(0, from as int),
                v@.subrange(from as int, n as int).to_multiset() == old(v)@.subrange(from as int, n as int).to_multiset(),
                forall|a: int, b: int| from <= a < b <= i && b != j ==> v@[a].index <= v@[b].index,
                forall|b: int| j < b <= i ==> v@[j as int].index <= #[trigger] v@[b].index,
            decreases j,
        {
            let ghost before = v@;
            let x: LookupMap = v[j - 1];
            let y: LookupMap = v[j];
            v.set(j - 1, y);
            v.set(j, x);
            proof {
                let t = before.subrange(from as int, n as int);
                lemma_swap_keeps_multiset(t, j - 1 - from, j - from);
                assert(v@.subrange(from as int, n as int) =~= t.update(j - 1 - from, t[j - from]).update(
                    j - from,
                    t[j - 1 - from],
                ));
                assert(v@.subrange(0, from as int) =~= before.subrange(0, from as int));
            }
            j = j - 1;
        }
        assert forall|a: int, b: int| from <= a < b <= i implies v@[a].index <= v@[b].index by {
            if b == j && a < j - 1 {
                assert(v@[a].index <= v@[j - 1].index);
            }
        }
        i = i + 1;
    }
}

/// Sorts the lookups of one stage (those from `from` on) by index and
/// merges the entries of one lookup: their masks add up, and each
/// joiner flag stays only where all of them have it.
fn merge_stage(v: &mut Vec<LookupMap>, from: usize, count: u16)
    requires
        from <= old(v)@.len(),
        forall|k: int| 0 <= k < old(v)@.len() ==> (#[trigger] old(v)@[k]).index < count,
    ensures
        from <= final(v)@.len() <= old(v)@.len(),
        final(v)@.subrange(0, from as int) == old(v)@.subrange(0, from as int),
        forall|k: int| 0 <= k < final(v)@.len() ==> (#[trigger] final(v)@[k]).index < count,
        forall|i: int, j: int| from <= i < j < final(v)@.len() ==> final(v)@[i].index < final(v)@[j].index,
        forall|x: u16| has_index_from(final(v)@, from as int, x) <==> has_index_from(old(v)@, from as int, x),
{
    let n: usize = v.len();
    if n - from < 2 {
        return;
    }
    let ghost original = v@;
    sort_lookups_from(v, from);
    let ghost sorted = v@;
    proof {
        assert forall|x: u16| has_index_from(sorted, from as int, x) <==> has_index_from(original, from as int, x) by {
            lemma_tail_multiset_indices(sorted, original, from as int, x);
        }
        assert forall|k: int| 0 <= k < sorted.len() implies (#[trigger] sorted[k]).index < count by {
            if k < from {
                assert(sorted[k] == sorted.subrange(0, from as int)[k]);
                assert(original.subrange(0, from as int)[k] == original[k]);
            } else {
                assert(has_index_from(sorted, from as int, sorted[k].index));
                let i = choose|i: int| from <= i < original.len() && #[trigger] original[i].index == sorted[k].index;
                assert(original[i].index < count);
            }
        }
    }
    let mut j: usize = from;
    let mut k: usize = from + 1;
    assert(v@[from as int].index == sorted[from as int].index);
    while k < n
        invariant
            from <= j < k <= n,
            n == v@.len(),
            n == sorted.len(),
            v@.subrange(0, from as int) == original.subrange(0, from as int),
            sorted.subrange(0, from as int) == original.subrange(0, from as int),
            forall|a: int, b: int| from <= a < b < n ==> sorted[a].index <= sorted[b].index,
            forall|m: int| k <= m < n ==> #[trigger] v@[m] == sorted[m],
            forall|m: int| 0 <= m < n ==> (#[trigger] sorted[m]).index < count,
            forall|m: int| 0 <= m <= j ==> (#[trigger] v@[m]).index < count,
            forall|a: int, b: int| from <= a < b <= j ==> v@[a].index < v@[b].index,
            v@[j as int].index == sorted[k - 1].index,
            forall|m: int| from <= m <= j ==> has_index_from(sorted, from as int, (#[trigger] v@[m]).index),
            forall|m: int| #![trigger sorted[m]]
                from <= m < k ==> exists|q: int| from <= q <= j && #[trigger] v@[q].index == sorted[m].index,
        decreases n - k,
    {
        let cur: LookupMap = v[k];
        let ghost before = v@;
        if cur.index != v[j].index {
            assert(sorted[k - 1].index <= sorted[k as int].index);
            j = j + 1;
            v.set(j, cur);
            assert(has_index_from(sorted, from as int, v@[j as int].index)) by {
                assert(sorted[k as int].index == v@[j as int].index);
            }
            assert forall|m: int| #![trigger sorted[m]]
                from <= m < k + 1 implies exists|q: int| from <= q <= j && #[trigger] v@[q].index == sorted[m].index by {
                if m < k {
                    let q0 = choose|q: int| from <= q <= j - 1 && #[trigger] before[q].index == sorted[m].index;
                    assert(v@[q0].index == sorted[m].index);
                } else {
                    assert(v@[j as int].index == sorted[m].index);
                }
            }
        } else {
            let mut e: LookupMap = v[j];
            e.mask = e.mask | cur.mask;
            e.auto_zwnj = e.auto_zwnj && cur.auto_zwnj;
            e.auto_zwj = e.auto_zwj && cur.auto_zwj;
            v.set(j, e);
            assert forall|m: int| #![trigger sorted[m]]
                from <= m < k + 1 implies exists|q: int| from <= q <= j && #[trigger] v@[q].index == sorted[m].index by {
                if m < k {
                    let q0 = choose|q: int| from <= q <= j && #[trigger] before[q].index == sorted[m].index;
                    assert(v@[q0].index == sorted[m].index);
                } else {
                    assert(v@[j as int].index == sorted[m].index);
                }
            }
        }
        assert(v@.subrange(0, from as int) =~= before.subrange(0, from as int));
        k = k + 1;
    }
    let ghost pre = v@;
    v.truncate(j + 1);
    assert(v@ == pre.subrange(0, j + 1));
    assert(v@.subrange(0, from as int) =~= pre.subrange(0, from as int));
    assert forall|x: u16| has_index_from(v@, from as int, x) <==> has_index_from(sorted, from as int, x) by {
        if has_index_from(v@, from as int, x) {
            let m = choose|m: int| from <= m < v@.len() && #[trigger] v@[m].index == x;
            assert(v@[m] == pre[m]);
            assert(has_index_from(sorted, from as int, pre[m].index));
        }
        if has_index_from(sorted, from as int, x) {
            let m = choose|m: int| from <= m < sorted.len() && #[trigger] sorted[m].index == x;
            assert(sorted[m].index == x);
            let q = choose|q: int| from <= q <= j && #[trigger] pre[q].index == sorted[m].index;
            assert(v@[q] == pre[q]);
        }
    }
    assert forall|m: int| 0 <= m < v@.len() implies (#[trigger] v@[m]).index < count by {
        assert(v@[m] == pre[m]);
    }
}

/// What the first `n` overrides want of lookup `x`: nothing, or on when
/// any of them switches it on.
pub open spec fn spec_wanted(ov: Seq<(u16, bool)>, x: u16, n: int) -> Option<bool>
    decreases n,
{
    if n <= 0 {
        None
    } else {
        let before = spec_wanted(ov, x, n - 1);
        if ov[n - 1].0 == x {
            Some(
                match before {
                    Some(e) => e || ov[n - 1].1,
                    None => ov[n - 1].1,
                },
            )
        } else {
            before
        }
    }
}

/// The entry of `w` for `x`.
pub open spec fn spec_entry(w: Seq<(u16, bool)>, x: u16) -> Option<bool> {
    if exists|i: int| 0 <= i < w.len() && #[trigger] w[i].0 == x {
        Some(w[choose|i: int| 0 <= i < w.len() && #[trigger] w[i].0 == x].1)
    } else {
        None
    }
}

pub open spec fn keys_sorted(w: Seq<(u16, bool)>) -> bool {
    forall|i: int, j: int| 0 <= i < j < w.len() ==> w[i].0 < w[j].0
}

proof fn lemma_entry_at(w: Seq<(u16, bool)>, i: int)
    requires
        keys_sorted(w),
        0 <= i < w.len(),
    ensures
        spec_entry(w, w[i].0) == Some(w[i].1),
{
    let c = choose|c: int| 0 <= c < w.len() && #[trigger] w[c].0 == w[i].0;
    if c < i {
        assert(w[c].0 < w[i].0);
    } else if c > i {
        assert(w[i].0 < w[c].0);
    }
}

/// Records that `x` is wanted with `enable`, in a list kept in key order.
fn want(w: &mut Vec<(u16, bool)>, x: u16, enable: bool)
    requires
        keys_sorted(old(w)@),
    ensures
        keys_sorted(final(w)@),
        forall|y: u16| y != x ==> spec_entry(final(w)@, y) == spec_entry(old(w)@, y),
        spec_entry(final(w)@, x) == Some(
            match spec_entry(old(w)@, x) {
                Some(e) => e || enable,
                None => enable,
            },
        ),
{
    let ghost before = w@;
    let mut p: usize = 0;
    while p < w.len() && w[p].0 < x
        invariant
            p <= w@.len(),
            forall|i: int| 0 <= i < p ==> #[trigger] w@[i].0 < x,
        decreases w@.len() - p,
    {
        p = p + 1;
    }
    if p < w.len() && w[p].0 == x {
        let e: bool = w[p].1;
        w.set(p, (x, e || enable));
        proof {
            lemma_entry_at(before, p as int);
            assert(w@ == before.update(p as int, (x, e || enable)));
            assert(keys_sorted(w@)) by {
                assert forall|i: int, j: int| 0 <= i < j < w@.len() implies w@[i].0 < w@[j].0 by {
                    assert(before[i].0 < before[j].0);
                }
            }
            lemma_entry_at(w@, p as int);
            assert forall|y: u16| y != x implies spec_entry(w@, y) == spec_entry(before, y) by {
                if exists|i: int| 0 <= i < before.len() && #[trigger] before[i].0 == y {
                    let i = choose|i: int| 0 <= i < before.len() && #[trigger] before[i].0 == y;
                    lemma_entry_at(before, i);
                    assert(w@[i] == before[i]);
                    lemma_entry_at(w@, i);
                } else {
                    assert forall|i: int| 0 <= i < w@.len() implies #[trigger] w@[i].0 != y by {
                        if i != p {
                            assert(w@[i] == before[i]);
                        }
                    }
                }
            }
        }
    } else {
        w.insert(p, (x, enable));
        proof {
            assert(w@ == before.insert(p as int, (x, enable)));
            assert forall|i: int| p <= i < before.len() implies x < #[trigger] before[i].0 by {
                if p < before.len() {
                    assert(before[p as int].0 >= x);
                    assert(before[p as int].0 != x);
                    if i > p {
                        assert(before[p as int].0 < before[i].0);
                    }
                }
            }
            assert(keys_sorted(w@)) by {
                assert forall|i: int, j: int| 0 <= i < j < w@.len() implies w@[i].0 < w@[j].0 by {
                    if j < p {
                        assert(before[i].0 < before[j].0);
                    } else if j == p {
                    } else if i < p {
                        assert(before[i].0 < x);
                        assert(w@[j] == before[j - 1]);
                    } else if i == p {
                        assert(w@[j] == before[j - 1]);
                    } else {
                        assert(before[i - 1].0 < before[j - 1].0);
                    }
                }
            }
            assert(forall|i: int| 0 <= i < before.len() ==> #[trigger] before[i].0 != x);
            lemma_entry_at(w@, p as int);
            assert forall|y: u16| y != x implies spec_entry(w@, y) == spec_entry(before, y) by {
                if exists|i: int| 0 <= i < before.len() && #[trigger] before[i].0 == y {
                    let i = choose|i: int| 0 <= i < before.len() && #[trigger] before[i].0 == y;
                    lemma_entry_at(before, i);
                    let k = if i < p { i } else { i + 1 };
                    assert(w@[k] == before[i]);
                    lemma_entry_at(w@, k);
                } else {
                    assert forall|i: int| 0 <= i < w@.len() implies #[trigger] w@[i].0 != y by {
                        if i < p {
                            assert(w@[i] == before[i]);
                        } else if i > p {
                            assert(w@[i] == before[i - 1]);
                        }
                    }
                }
            }
        }
    }
}

/// The entry of `w` for `x`.
fn entry_of(w: &Vec<(u16, bool)>, x: u16) -> (r: Option<bool>)
    requires
        keys_sorted(w@),
    ensures
        r == spec_entry(w@, x),
{
    let mut i: usize = 0;
    while i < w.len()
        invariant
            i <= w@.len(),
            keys_sorted(w@),
            forall|k: int| 0 <= k < i ==> #[trigger] w@[k].0 != x,
        decreases w@.len() - i,
    {
        if w[i].0 == x {
            proof {
                lemma_entry_at(w@, i as int);
            }
            return Some(w[i].1);
        }
        i = i + 1;
    }
    None
}

/// Whether some lookup has index `x`.
fn has_lookup(v: &Vec<LookupMap>, x: u16) -> (r: bool)
    ensures
        r == has_index_from(v@, 0, x),
{
    let mut i: usize = 0;
    while i < v.len()
        invariant
            i <= v@.len(),
            forall|k: int| 0 <= k < i ==> #[trigger] v@[k].index != x,
        decreases v@.len() - i,
    {
        if v[i].index == x {
            return true;
        }
        i = i + 1;
    }
    false
}

/// Applies the lookup overrides of one table: lookups switched off leave
/// every stage, and lookups switched on that the table has and no stage
/// holds join the last stage.
fn apply_overrides(
    overrides: &Vec<(u16, bool)>,
    lookup_count: u16,
    lookups: &mut Vec<LookupMap>,
    stages: &mut Vec<StageMap>,
)
    requires
        stages_ok(old(stages)@, old(lookups)@.len() as int),
        forall|k: int| 0 <= k < old(lookups)@.len() ==> (#[trigger] old(lookups)@[k]).index < lookup_count,
    ensures
        stages_ok(final(stages)@, final(lookups)@.len() as int),
        final(stages)@.len() == old(stages)@.len(),
        forall|k: int| 0 <= k < final(lookups)@.len() ==> (#[trigger] final(lookups)@[k]).index < lookup_count,
        forall|k: int|
            0 <= k < final(lookups)@.len() ==> spec_wanted(
                overrides@,
                (#[trigger] final(lookups)@[k]).index,
                overrides@.len() as int,
            ) != Some(false),
        forall|x: u16|
            spec_wanted(overrides@, x, overrides@.len() as int) == Some(true) && x < lookup_count
                ==> has_index_from(final(lookups)@, 0, x),
        overrides@.len() == 0 ==> final(lookups)@ == old(lookups)@ && final(stages)@ == old(stages)@,
{
    if overrides.len() == 0 {
        return;
    }
    let mut wanted: Vec<(u16, bool)> = Vec::new();
    let mut o: usize = 0;
    while o < overrides.len()
        invariant
            o <= overrides@.len(),
            keys_sorted(wanted@),
            forall|x: u16| #[trigger] spec_entry(wanted@, x) == spec_wanted(overrides@, x, o as int),
        decreases overrides@.len() - o,
    {
        let (x, enable) = overrides[o];
        want(&mut wanted, x, enable);
        o = o + 1;
    }
    let mut any_off: bool = false;
    let mut q: usize = 0;
    while q < wanted.len()
        invariant
            q <= wanted@.len(),
            any_off ==> exists|i: int| 0 <= i < wanted@.len() && !(#[trigger] wanted@[i]).1,
            !any_off ==> forall|i: int| 0 <= i < q ==> (#[trigger] wanted@[i]).1,
        decreases wanted@.len() - q,
    {
        if !wanted[q].1 {
            any_off = true;
        }
        q = q + 1;
    }
    if any_off {
        let ghost orig = lookups@;
        let ghost orig_stages = stages@;
        let n: usize = lookups.len();
        let mut kept: usize = 0;
        let mut at: usize = 0;
        let mut s: usize = 0;
        while s < stages.len()
            invariant
                s <= stages@.len(),
                stages@.len() == orig_stages.len(),
                kept <= at <= n,
                n == lookups@.len(),
                n == orig.len(),
                stages_ok(orig_stages, n as int),
                keys_sorted(wanted@),
                at == if s == 0 {
                    0
                } else {
                    orig_stages[s - 1].last_lookup as int
                },
                forall|m: int| at <= m < n ==> #[trigger] lookups@[m] == orig[m],
                forall|m: int| s <= m < stages@.len() ==> #[trigger] stages@[m] == orig_stages[m],
                forall|m: int| 0 <= m < s ==> (#[trigger] stages@[m]).last_lookup <= kept,
                forall|a: int, b: int| 0 <= a < b < s ==> stages@[a].last_lookup <= stages@[b].last_lookup,
                forall|m: int| 0 <= m < n ==> (#[trigger] orig[m]).index < lookup_count,
                forall|m: int| 0 <= m < kept ==> (#[trigger] lookups@[m]).index < lookup_count,
                forall|m: int| 0 <= m < kept ==> spec_entry(wanted@, (#[trigger] lookups@[m]).index) != Some(false),
            decreases stages@.len() - s,
        {
            let end: usize = stages[s].last_lookup;
            assert(orig_stages[s as int].last_lookup >= at) by {
                if s > 0 {
                    assert(orig_stages[s - 1].last_lookup <= orig_stages[s as int].last_lookup);
                }
            }
            while at < end
                invariant
                    kept <= at <= end <= n,
                    n == lookups@.len(),
                    n == orig.len(),
                    keys_sorted(wanted@),
                    forall|m: int| at <= m < n ==> #[trigger] lookups@[m] == orig[m],
                    forall|m: int| 0 <= m < n ==> (#[trigger] orig[m]).index < lookup_count,
                    forall|m: int| 0 <= m < kept ==> (#[trigger] lookups@[m]).index < lookup_count,
                    forall|m: int| 0 <= m < kept ==> spec_entry(wanted@, (#[trigger] lookups@[m]).index) != Some(false),
                    forall|m: int| 0 <= m < s ==> (#[trigger] stages@[m]).last_lookup <= kept,
                decreases end - at,
            {
                let l: LookupMap = lookups[at];
                let w: Option<bool> = entry_of(&wanted, l.index);
                let off: bool = match w {
                    Some(false) => true,
                    _ => false,
                };
                if !off {
                    lookups.set(kept, l);
                    kept = kept + 1;
                }
                at = at + 1;
            }
            let pause: Option<usize> = stages[s].pause_index;
            stages.set(s, StageMap { last_lookup: kept, pause_index: pause });
            s = s + 1;
        }
        lookups.truncate(kept);
        assert(stages_ok(stages@, lookups@.len() as int));
    } else {
        assert forall|k: int| 0 <= k < lookups@.len() implies spec_entry(wanted@, (#[trigger] lookups@[k]).index) != Some(false) by {
            let x = lookups@[k].index;
            if exists|i: int| 0 <= i < wanted@.len() && #[trigger] wanted@[i].0 == x {
                let i = choose|i: int| 0 <= i < wanted@.len() && #[trigger] wanted@[i].0 == x;
                lemma_entry_at(wanted@, i);
            }
        }
    }
    let ghost mid = lookups@;
    let mut added: bool = false;
    let mut q: usize = 0;
    while q < wanted.len()
        invariant
            q <= wanted@.len(),
            keys_sorted(wanted@),
            lookups@.len() >= mid.len(),
            lookups@.subrange(0, mid.len() as int) == mid,
            !added ==> lookups@.len() == mid.len(),
            forall|m: int| 0 <= m < lookups@.len() ==> (#[trigger] lookups@[m]).index < lookup_count,
            forall|m: int| 0 <= m < lookups@.len() ==> spec_entry(wanted@, (#[trigger] lookups@[m]).index) != Some(false),
            forall|i: int|
                0 <= i < q && (#[trigger] wanted@[i]).1 && wanted@[i].0 < lookup_count ==> has_index_from(
                    lookups@,
                    0,
                    wanted@[i].0,
                ),
        decreases wanted@.len() - q,
    {
        let (x, enable) = wanted[q];
        if enable && x < lookup_count && !has_lookup(lookups, x) {
            let ghost prev = lookups@;
            proof {
                lemma_entry_at(wanted@, q as int);
            }
            lookups.push(
                LookupMap {
                    index: x,
                    mask: GLOBAL_BIT_MASK,
                    auto_zwnj: true,
                    auto_zwj: true,
                    random: false,
                    per_syllable: false,
                },
            );
            added = true;
            assert(lookups@.subrange(0, mid.len() as int) =~= prev.subrange(0, mid.len() as int));
            assert forall|i: int|
                0 <= i < q + 1 && (#[trigger] wanted@[i]).1 && wanted@[i].0 < lookup_count implies has_index_from(
                    lookups@,
                    0,
                    wanted@[i].0,
                ) by {
                if i < q {
                    let m = choose|m: int| 0 <= m < prev.len() && #[trigger] prev[m].index == wanted@[i].0;
                    assert(lookups@[m] == prev[m]);
                } else {
                    assert(lookups@[prev.len() as int].index == x);
                }
            }
        }
        q = q + 1;
    }
    if added {
        let ns: usize = stages.len();
        if ns > 0 {
            let pause: Option<usize> = stages[ns - 1].pause_index;
            stages.set(ns - 1, StageMap { last_lookup: lookups.len(), pause_index: pause });
        }
    }
    proof {
        assert forall|x: u16|
            spec_wanted(overrides@, x, overrides@.len() as int) == Some(true) && x < lookup_count implies has_index_from(
            lookups@,
            0,
            x,
        ) by {
            assert(spec_entry(wanted@, x) == Some(true));
            let i = choose|i: int| 0 <= i < wanted@.len() && #[trigger] wanted@[i].0 == x;
            lemma_entry_at(wanted@, i);
            assert(wanted@[i].1);
        }
        assert forall|k: int| 0 <= k < lookups@.len() implies spec_wanted(
            overrides@,
            (#[trigger] lookups@[k]).index,
            overrides@.len() as int,
        ) != Some(false) by {
            assert(spec_entry(wanted@, lookups@[k].index) != Some(false));
        }
    }
}

impl<'a> TableState<'a> {
    /// The number of lookups of the table, zero without a table.
    pub open spec fn spec_lookup_count(&self) -> u16 {
        match self.table {
            None => 0,
            Some(t) => spec_u16_or_zero(t.bytes(), t.lookup_list as int) as u16,
        }
    }

    /// The lookups of each stage of this table: the required feature's in
    /// its stage, then those of every feature of the stage, sorted by
    /// index with the entries of one lookup merged; then the overrides.
    fn collect_lookups(&self, t: TableIndex, features: &Vec<FeatureMap>, required: Option<u16>, required_stage: usize) -> (r: (
        Vec<LookupMap>,
        Vec<StageMap>,
    ))
        requires
            self.wf(),
        ensures
            stages_ok(r.1@, r.0@.len() as int),
            forall|k: int| 0 <= k < r.0@.len() ==> (#[trigger] r.0@[k]).index < self.spec_lookup_count(),
            self.table is Some ==> forall|k: int|
                0 <= k < r.0@.len() ==> spec_wanted(
                    self.overrides@,
                    (#[trigger] r.0@[k]).index,
                    self.overrides@.len() as int,
                ) != Some(false),
            self.table is Some ==> forall|x: u16|
                spec_wanted(self.overrides@, x, self.overrides@.len() as int) == Some(true) && x
                    < self.spec_lookup_count() ==> has_index_from(r.0@, 0, x),
    {
        let i: usize = t.idx();
        let count: u16 = match self.table {
            Some(table) => table.lookup_count(),
            None => 0,
        };
        proof {
            if let Some(table) = self.table {
                assert(spec_u16_or_zero(table.bytes(), table.lookup_list as int) <= 0xFFFF);
            }
        }
        let mut lookups: Vec<LookupMap> = Vec::new();
        let mut stage_maps: Vec<StageMap> = Vec::new();
        let mut stage_index: usize = 0;
        let mut last_lookup: usize = 0;
        let mut stage: usize = 0;
        while stage < self.current_stage
            invariant
                i < 2,
                self.wf(),
                count == self.spec_lookup_count(),
                last_lookup == lookups@.len(),
                stages_ok(stage_maps@, lookups@.len() as int),
                forall|k: int| 0 <= k < lookups@.len() ==> (#[trigger] lookups@[k]).index < count,
            decreases self.current_stage - stage,
        {
            if let Some(table) = self.table {
                if let Some(f) = required {
                    if required_stage == stage {
                        let ghost prev = lookups@;
                        push_lookups(&mut lookups, table, f, GLOBAL_BIT_MASK, true, true, false, false);
                        assert forall|k: int| 0 <= k < lookups@.len() implies (#[trigger] lookups@[k]).index < count by {
                            if k < prev.len() {
                                assert(lookups@[k] == lookups@.subrange(0, prev.len() as int)[k]);
                            }
                        }
                    }
                }
                let mut q: usize = 0;
                while q < features.len()
                    invariant
                        i < 2,
                        self.wf(),
                        self.table == Some(table),
                        count == self.spec_lookup_count(),
                        lookups@.len() >= last_lookup,
                        stages_ok(stage_maps@, last_lookup as int),
                        forall|k: int| 0 <= k < lookups@.len() ==> (#[trigger] lookups@[k]).index < count,
                    decreases features@.len() - q,
                {
                    let f: FeatureMap = features[q];
                    if let Some(fi) = f.index[i] {
                        if f.stage[i] == stage {
                            let ghost prev = lookups@;
                            push_lookups(
                                &mut lookups,
                                table,
                                fi,
                                f.mask,
                                f.auto_zwnj,
                                f.auto_zwj,
                                f.random,
                                f.per_syllable,
                            );
                            assert forall|k: int| 0 <= k < lookups@.len() implies (#[trigger] lookups@[k]).index < count by {
                                if k < prev.len() {
                                    assert(lookups@[k] == lookups@.subrange(0, prev.len() as int)[k]);
                                }
                            }
                        }
                    }
                    q = q + 1;
                }
                let len: usize = lookups.len();
                if len - last_lookup >= 2 {
                    merge_stage(&mut lookups, last_lookup, count);
                }
            }
            last_lookup = lookups.len();
            if stage_index < self.stages.len() && self.stages[stage_index].0 == stage {
                let pause: Option<usize> = self.stages[stage_index].1;
                stage_maps.push(StageMap { last_lookup, pause_index: pause });
                stage_index = stage_index + 1;
            }
            stage = stage + 1;
        }
        if let Some(_) = self.table {
            apply_overrides(&self.overrides, count, &mut lookups, &mut stage_maps);
        }
        (lookups, stage_maps)
    }
}

impl<'a> MapBuilder<'a> {
    /// Compiles the plan into a map: the features with their mask bits, and
    /// for each table its lookups stage by stage.
    pub fn compile(self) -> (m: LayoutMap)
        requires
            self.wf(),
            self.gsub.current_stage < usize::MAX,
            self.gpos.current_stage < usize::MAX,
        ensures
            m.wf(),
            masks_apart(m.features@),
            m.global_mask & GLOBAL_BIT_MASK == GLOBAL_BIT_MASK,
            forall|k: int| 0 <= k < m.gsub_lookups@.len() ==> (#[trigger] m.gsub_lookups@[k]).index < self.gsub.spec_lookup_count(),
            forall|k: int| 0 <= k < m.gpos_lookups@.len() ==> (#[trigger] m.gpos_lookups@[k]).index < self.gpos.spec_lookup_count(),
            m.found_script == [self.gsub.found_script, self.gpos.found_script],
            m.chosen_script == [self.gsub.chosen_script, self.gpos.chosen_script],
            exists|d: Seq<FeatureInfo>|
                #![trigger is_dedup_of(d, self.feature_infos@)]
                is_dedup_of(d, self.feature_infos@) && {
                    let c = compile_fold(
                        d,
                        d.len() as int,
                        self.gsub,
                        self.gpos,
                        self.gsub.spec_required(),
                        self.gpos.spec_required(),
                    );
                    m.features@ == c.0 && m.global_mask == c.3
                },
    {
        let ghost original = self;
        let mut b = self;
        let (features, required_stage, global_mask) = b.compile_features();
        let ghost d = b.feature_infos@;
        assert(is_dedup_of(d, original.feature_infos@));
        b.add_gsub_pause(None);
        b.add_gpos_pause(None);
        let req0: Option<u16> = b.gsub.required();
        let req1: Option<u16> = b.gpos.required();
        let (gsub_lookups, gsub_stages) = b.gsub.collect_lookups(TableIndex::Gsub, &features, req0, required_stage[0]);
        let (gpos_lookups, gpos_stages) = b.gpos.collect_lookups(TableIndex::Gpos, &features, req1, required_stage[1]);
        LayoutMap {
            found_script: [b.gsub.found_script, b.gpos.found_script],
            chosen_script: [b.gsub.chosen_script, b.gpos.chosen_script],
            global_mask,
            features,
            gsub_lookups,
            gpos_lookups,
            gsub_stages,
            gpos_stages,
        }
    }
}

} // verus!