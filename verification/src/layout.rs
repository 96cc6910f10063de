//! The common header of the GSUB and GPOS tables: the script list with its
//! language systems, the feature list and the lookup list, and the
//! selection of a script, a language system and its features.

use vstd::prelude::*;
use crate::ot::{spec_u16, spec_u32, read_u16_be, read_u32_be, Lookup};
use crate::tag::{Tag, tag_value, tag_seq};

verus! {

/// The four bytes at `at`, if the data holds them.
pub open spec fn spec_tag4(d: Seq<u8>, at: int) -> Option<Seq<u8>> {
    if 0 <= at && at + 4 <= d.len() {
        Some(d.subrange(at, at + 4))
    } else {
        None
    }
}

/// The `u16` at `at`, or zero where the data runs short.
pub open spec fn spec_u16_or_zero(d: Seq<u8>, at: int) -> int {
    match spec_u16(d, at) {
        Some(v) => v as int,
        None => 0,
    }
}

/// The tags of the first `n` records of a tag list at `list` (a count,
/// then six-byte records that start with the tag); a record that runs past
/// the end of the data is left out.
pub open spec fn spec_list_tags(d: Seq<u8>, list: int, n: nat) -> Seq<Seq<u8>>
    decreases n,
{
    if n == 0 {
        Seq::empty()
    } else {
        let before = spec_list_tags(d, list, (n - 1) as nat);
        match spec_tag4(d, list + 2 + (n - 1) * 6) {
            Some(t) => before.push(t),
            None => before,
        }
    }
}

/// The first record, from `i` on and below `count`, of the tag list at
/// `list` whose tag is `tag`.
pub open spec fn spec_tag_index_from(d: Seq<u8>, list: int, tag: Seq<u8>, count: int, i: int) -> Option<u16>
    decreases count - i,
{
    if i < 0 || i >= count {
        None
    } else if spec_tag4(d, list + 2 + i * 6) == Some(tag) {
        Some(i as u16)
    } else {
        spec_tag_index_from(d, list, tag, count, i + 1)
    }
}

/// The first record of the tag list at `list` whose tag is `tag`; `None`
/// where the list has no count.
pub open spec fn spec_tag_index(d: Seq<u8>, list: int, tag: Seq<u8>) -> Option<u16> {
    match spec_u16(d, list) {
        None => None,
        Some(count) => spec_tag_index_from(d, list, tag, count as int, 0),
    }
}

/// The first of `tags`, from `k` on, that the script list at `list` holds,
/// with its record index; failing that, the first of the fallback scripts.
pub open spec fn spec_select_script_from(d: Seq<u8>, list: int, tags: Seq<Tag>, k: int) -> Option<(bool, u16, Tag)>
    decreases tags.len() - k,
{
    if k < 0 || k >= tags.len() {
        spec_select_fallback(d, list)
    } else {
        match spec_tag_index(d, list, tag_seq(tags[k].0)) {
            Some(i) => Some((true, i, tags[k])),
            None => spec_select_script_from(d, list, tags, k + 1),
        }
    }
}

/// `DFLT`, `dflt` and `latn` in turn, where none of the wanted scripts is
/// in the list.
pub open spec fn spec_select_fallback(d: Seq<u8>, list: int) -> Option<(bool, u16, Tag)> {
    match spec_tag_index(d, list, tag_seq(0x4446_4C54u32)) {
        Some(i) => Some((false, i, Tag(0x4446_4C54u32))),
        None => match spec_tag_index(d, list, tag_seq(0x6466_6C74u32)) {
            Some(i) => Some((false, i, Tag(0x6466_6C74u32))),
            None => match spec_tag_index(d, list, tag_seq(0x6C61_746Eu32)) {
                Some(i) => Some((false, i, Tag(0x6C61_746Eu32))),
                None => None,
            },
        },
    }
}

/// The language-system scan of a script table at `s`: for each of `tags`
/// from `k` on, its records from `i` on; a record that runs past the end of
/// the data ends the scan with nothing.
pub open spec fn spec_langsys_scan(d: Seq<u8>, s: int, tags: Seq<Tag>, count: int, k: int, i: int) -> Option<u16>
    decreases tags.len() - k, count - i,
{
    if k < 0 || k >= tags.len() || i < 0 {
        None
    } else if i >= count {
        spec_langsys_scan(d, s, tags, count, k + 1, 0)
    } else {
        match spec_tag4(d, s + 4 + i * 6) {
            None => None,
            Some(b) => if b == tag_seq(tags[k].0) {
                Some(i as u16)
            } else {
                spec_langsys_scan(d, s, tags, count, k, i + 1)
            },
        }
    }
}

/// The first language-system record of script record `script` whose tag
/// is one of `tags`, trying the tags in turn.
pub open spec fn spec_select_langsys(d: Seq<u8>, sl: int, script: u16, tags: Seq<Tag>) -> Option<u16> {
    match spec_script_table(d, sl, script) {
        None => None,
        Some(s) => match spec_u16(d, s + 2) {
            None => None,
            Some(count) => spec_langsys_scan(d, s, tags, count as int, 0, 0),
        },
    }
}

/// The `u16` values present among the first `n` entries of an array of
/// 16-bit values at `base`.
pub open spec fn spec_u16_array(d: Seq<u8>, base: int, n: nat) -> Seq<u16>
    decreases n,
{
    if n == 0 {
        Seq::empty()
    } else {
        let before = spec_u16_array(d, base, (n - 1) as nat);
        match spec_u16(d, base + (n - 1) * 2) {
            Some(v) => before.push(v),
            None => before,
        }
    }
}

/// The tag of feature record `feature` of the feature list at `list`.
pub open spec fn spec_feature_tag(d: Seq<u8>, list: int, feature: u16) -> Option<Tag> {
    match spec_tag4(d, list + 2 + feature * 6) {
        Some(b) => Some(Tag(tag_value(b[0], b[1], b[2], b[3]))),
        None => None,
    }
}

/// The first of `fs`, from `k` on, whose feature record has tag `tag`.
pub open spec fn spec_first_feature(d: Seq<u8>, list: int, fs: Seq<u16>, tag: Tag, k: int) -> Option<u16>
    decreases fs.len() - k,
{
    if k < 0 || k >= fs.len() {
        None
    } else if spec_feature_tag(d, list, fs[k]) == Some(tag) {
        Some(fs[k])
    } else {
        spec_first_feature(d, list, fs, tag, k + 1)
    }
}

/// The first feature record, from `i` on and below `count`, with tag `tag`.
pub open spec fn spec_first_feature_record(d: Seq<u8>, list: int, tag: Tag, count: int, i: int) -> Option<u16>
    decreases count - i,
{
    if i < 0 || i >= count {
        None
    } else if spec_feature_tag(d, list, i as u16) == Some(tag) {
        Some(i as u16)
    } else {
        spec_first_feature_record(d, list, tag, count, i + 1)
    }
}

/// The offset of the script table of record `script` of the script list at
/// `sl`.
pub open spec fn spec_script_table(d: Seq<u8>, sl: int, script: u16) -> Option<int> {
    match spec_u16(d, sl + 2 + script * 6 + 4) {
        Some(rel) => Some(sl + rel),
        None => None,
    }
}

/// The offset of a language system table: that of record `lang` of the
/// script, or the script's default one (absent where its offset is zero).
pub open spec fn spec_langsys_table(d: Seq<u8>, sl: int, script: u16, lang: Option<u16>) -> Option<int> {
    match spec_script_table(d, sl, script) {
        None => None,
        Some(s) => match lang {
            Some(i) => match spec_u16(d, s + 4 + i * 6 + 4) {
                Some(rel) => Some(s + rel),
                None => None,
            },
            None => match spec_u16(d, s) {
                None => None,
                Some(rel) => if rel == 0 {
                    None
                } else {
                    Some(s + rel)
                },
            },
        },
    }
}

/// The required feature of a language system, where it names one.
pub open spec fn spec_required_feature(d: Seq<u8>, sl: int, script: u16, lang: Option<u16>) -> Option<u16> {
    match spec_langsys_table(d, sl, script, lang) {
        None => None,
        Some(ls) => match spec_u16(d, ls + 2) {
            None => None,
            Some(i) => if i == 0xFFFF {
                None
            } else {
                Some(i)
            },
        },
    }
}

/// The feature indices of a language system, in order.
pub open spec fn spec_feature_indices(d: Seq<u8>, sl: int, script: u16, lang: Option<u16>) -> Seq<u16> {
    match spec_langsys_table(d, sl, script, lang) {
        None => Seq::empty(),
        Some(ls) => spec_u16_array(d, ls + 6, spec_u16_or_zero(d, ls + 4) as nat),
    }
}

/// The offset of the table of feature record `feature` of the feature list
/// at `fl`, or the substitute for it.
pub open spec fn spec_feature_table(d: Seq<u8>, fl: int, feature: u16, substitute: Option<usize>) -> Option<int> {
    match substitute {
        Some(off) => Some(off as int),
        None => match spec_u16(d, fl + 2 + feature * 6 + 4) {
            Some(rel) => Some(fl + rel),
            None => None,
        },
    }
}

/// The lookup indices of a feature table.
pub open spec fn spec_feature_lookups(d: Seq<u8>, fl: int, feature: u16, substitute: Option<usize>) -> Seq<u16> {
    match spec_feature_table(d, fl, feature, substitute) {
        None => Seq::empty(),
        Some(at) => spec_u16_array(d, at + 4, spec_u16_or_zero(d, at + 2) as nat),
    }
}

/// A GSUB or GPOS table: its data and the offsets of its three lists.
pub struct LayoutTable<'a> {
    pub data: &'a [u8],
    pub script_list: usize,
    pub feature_list: usize,
    pub lookup_list: usize,
    pub feature_variations: Option<usize>,
}

impl<'a> LayoutTable<'a> {
    /// The list offsets come from 16-bit fields.
    pub open spec fn wf(&self) -> bool {
        &&& self.script_list <= 0xFFFF
        &&& self.feature_list <= 0xFFFF
        &&& self.lookup_list <= 0xFFFF
    }

    pub open spec fn bytes(&self) -> Seq<u8> {
        self.data@
    }

    /// Reads the header; data shorter than the version and the three list
    /// offsets is refused.
    pub fn parse(data: &'a [u8]) -> (r: Option<LayoutTable<'a>>)
        ensures
            data@.len() < 10 <==> r is None,
            r matches Some(t) ==> {
                &&& t.wf()
                &&& t.data@ == data@
                &&& t.script_list == spec_u16(data@, 4).unwrap()
                &&& t.feature_list == spec_u16(data@, 6).unwrap()
                &&& t.lookup_list == spec_u16(data@, 8).unwrap()
                &&& t.feature_variations == if spec_u16(data@, 2).unwrap() >= 1 && data@.len()
                    >= 14 && spec_u32(data@, 10).unwrap() != 0 {
                    Some(spec_u32(data@, 10).unwrap() as usize)
                } else {
                    None
                }
            },
    {
        if data.len() < 10 {
            return None;
        }
        let minor: u16 = match read_u16_be(data, 2) {
            Some(v) => v,
            None => return None,
        };
        let script_list: u16 = match read_u16_be(data, 4) {
            Some(v) => v,
            None => return None,
        };
        let feature_list: u16 = match read_u16_be(data, 6) {
            Some(v) => v,
            None => return None,
        };
        let lookup_list: u16 = match read_u16_be(data, 8) {
            Some(v) => v,
            None => return None,
        };
        let feature_variations: Option<usize> = if minor >= 1 && data.len() >= 14 {
            match read_u32_be(data, 10) {
                Some(0) => None,
                Some(v) => Some(v as usize),
                None => return None,
            }
        } else {
            None
        };
        Some(
            LayoutTable {
                data,
                script_list: script_list as usize,
                feature_list: feature_list as usize,
                lookup_list: lookup_list as usize,
                feature_variations,
            },
        )
    }

    /// The number of lookups; zero where the lookup list runs short.
    pub fn lookup_count(&self) -> (r: u16)
        requires
            self.wf(),
        ensures
            r == spec_u16_or_zero(self.bytes(), self.lookup_list as int),
    {
        match read_u16_be(self.data, self.lookup_list) {
            Some(c) => c,
            None => 0,
        }
    }

    /// Lookup `index` of the lookup list, with its type, flags and
    /// subtable count read from its header.
    pub fn lookup(&self, index: u16) -> (r: Option<Lookup<'a>>)
        requires
            self.wf(),
        ensures
            index >= spec_u16_or_zero(self.bytes(), self.lookup_list as int) ==> r is None,
            index < spec_u16_or_zero(self.bytes(), self.lookup_list as int) ==> match spec_u16(
                self.bytes(),
                self.lookup_list + 2 + index * 2,
            ) {
                None => r is None,
                Some(rel) => {
                    let at = self.lookup_list + rel;
                    if at + 6 <= self.bytes().len() {
                        r matches Some(l) && l.table@ == self.bytes() && l.at == at && l.kind
                            == spec_u16(self.bytes(), at).unwrap() && l.flags == spec_u16(
                            self.bytes(),
                            at + 2,
                        ).unwrap() && l.subtable_count == spec_u16(self.bytes(), at + 4).unwrap()
                    } else {
                        r is None
                    }
                },
            },
            r matches Some(l) ==> l.at <= 0x2_0000,
    {
        if index >= self.lookup_count() {
            return None;
        }
        let rel: usize = match read_u16_be(self.data, self.lookup_list + 2 + index as usize * 2) {
            Some(v) => v as usize,
            None => return None,
        };
        let at: usize = self.lookup_list + rel;
        let kind: u16 = match read_u16_be(self.data, at) {
            Some(v) => v,
            None => return None,
        };
        let flags: u16 = match read_u16_be(self.data, at + 2) {
            Some(v) => v,
            None => return None,
        };
        let subtable_count: u16 = match read_u16_be(self.data, at + 4) {
            Some(v) => v,
            None => return None,
        };
        Some(Lookup { table: self.data, at, kind, flags, subtable_count })
    }

    /// The list offset plus the 16-bit offset stored in record `index`
    /// (records of `stride` bytes after the count, the offset `tag_at` bytes
    /// into the record).
    pub(crate) fn record_offset(&self, list: usize, index: u16, stride: usize, tag_at: usize) -> (r: Option<usize>)
        requires
            list <= 0x2_0000,
            stride <= 6,
            tag_at <= 4,
        ensures
            r == match spec_u16(self.bytes(), list + 2 + index * stride + tag_at) {
                Some(rel) => Some((list + rel) as usize),
                None => None,
            },
            r matches Some(o) ==> o <= list + 0xFFFF,
    {
        assert(index as usize * stride <= 0xFFFF * 6) by (nonlinear_arith)
            requires
                index <= 0xFFFF,
                stride <= 6,
        ;
        match read_u16_be(self.data, list + 2 + index as usize * stride + tag_at) {
            Some(rel) => Some(list + rel as usize),
            None => None,
        }
    }

    /// The tags of the tag list at `list`, in record order.
    pub(crate) fn list_tags(&self, list: usize) -> (r: Vec<[u8; 4]>)
        requires
            list <= 0x3_0000,
        ensures
            r@.len() == spec_list_tags(
                self.bytes(),
                list as int,
                spec_u16_or_zero(self.bytes(), list as int) as nat,
            ).len(),
            forall|k: int|
                0 <= k < r@.len() ==> #[trigger] r@[k]@ == spec_list_tags(
                    self.bytes(),
                    list as int,
                    spec_u16_or_zero(self.bytes(), list as int) as nat,
                )[k],
    {
        let d = self.data;
        let count: u16 = match read_u16_be(d, list) {
            Some(c) => c,
            None => 0,
        };
        let mut out: Vec<[u8; 4]> = Vec::new();
        let mut i: usize = 0;
        while i < count as usize
            invariant
                i <= count,
                list <= 0x3_0000,
                d@ == self.bytes(),
                count == spec_u16_or_zero(d@, list as int),
                out@.len() == spec_list_tags(d@, list as int, i as nat).len(),
                forall|k: int|
                    0 <= k < out@.len() ==> #[trigger] out@[k]@ == spec_list_tags(
                        d@,
                        list as int,
                        i as nat,
                    )[k],
            decreases count - i,
        {
            let at: usize = list + 2 + i * 6;
            if at <= d.len() && d.len() - at >= 4 {
                let b: [u8; 4] = [d[at], d[at + 1], d[at + 2], d[at + 3]];
                assert(b@ =~= d@.subrange(at as int, at + 4));
                out.push(b);
            }
            i = i + 1;
        }
        out
    }

    /// The first record of the tag list at `list` whose tag is `tag`.
    pub(crate) fn tag_index(&self, list: usize, tag: &[u8; 4]) -> (r: Option<u16>)
        requires
            list <= 0x3_0000,
        ensures
            r == spec_tag_index(self.bytes(), list as int, tag@),
    {
        let d = self.data;
        let count: u16 = match read_u16_be(d, list) {
            Some(c) => c,
            None => return None,
        };
        let mut i: u16 = 0;
        while i < count
            invariant
                i <= count,
                list <= 0x3_0000,
                d@ == self.bytes(),
                spec_u16(d@, list as int) == Some(count),
                spec_tag_index(d@, list as int, tag@) == spec_tag_index_from(
                    d@,
                    list as int,
                    tag@,
                    count as int,
                    i as int,
                ),
            decreases count - i,
        {
            let at: usize = list + 2 + i as usize * 6;
            if at <= d.len() && d.len() - at >= 4 {
                if d[at] == tag[0] && d[at + 1] == tag[1] && d[at + 2] == tag[2] && d[at + 3]
                    == tag[3] {
                    assert(d@.subrange(at as int, at + 4) =~= tag@);
                    return Some(i);
                }
                assert(d@.subrange(at as int, at + 4) != tag@) by {
                    if d@.subrange(at as int, at + 4) == tag@ {
                        assert(d@.subrange(at as int, at + 4)[0] == d@[at as int]);
                        assert(d@.subrange(at as int, at + 4)[1] == d@[at + 1]);
                        assert(d@.subrange(at as int, at + 4)[2] == d@[at + 2]);
                        assert(d@.subrange(at as int, at + 4)[3] == d@[at + 3]);
                    }
                }
            }
            i = i + 1;
        }
        None
    }

    /// The first record of the tag list at `list` whose tag is `tag`.
    fn find_tag(&self, list: usize, tag: Tag) -> (r: Option<u16>)
        requires
            list <= 0x3_0000,
        ensures
            r == spec_tag_index(self.bytes(), list as int, tag_seq(tag.0)),
    {
        let b: [u8; 4] = tag.to_bytes();
        assert(b@ =~= tag_seq(tag.0));
        self.tag_index(list, &b)
    }

    /// The record index of the first of `tags` that the script list holds;
    /// failing that, of `DFLT`, `dflt` or `latn`. The flag says whether one
    /// of `tags` was found.
    pub fn select_script(&self, tags: &[Tag]) -> (r: Option<(bool, u16, Tag)>)
        requires
            self.wf(),
        ensures
            r == spec_select_script_from(self.bytes(), self.script_list as int, tags@, 0),
    {
        let mut k: usize = 0;
        while k < tags.len()
            invariant
                k <= tags@.len(),
                self.wf(),
                spec_select_script_from(self.bytes(), self.script_list as int, tags@, 0)
                    == spec_select_script_from(
                    self.bytes(),
                    self.script_list as int,
                    tags@,
                    k as int,
                ),
            decreases tags.len() - k,
        {
            let tag: Tag = tags[k];
            if let Some(i) = self.find_tag(self.script_list, tag) {
                return Some((true, i, tag));
            }
            k = k + 1;
        }
        if let Some(i) = self.find_tag(self.script_list, Tag(0x4446_4C54)) {
            return Some((false, i, Tag(0x4446_4C54)));
        }
        if let Some(i) = self.find_tag(self.script_list, Tag(0x6466_6C74)) {
            return Some((false, i, Tag(0x6466_6C74)));
        }
        if let Some(i) = self.find_tag(self.script_list, Tag(0x6C61_746E)) {
            return Some((false, i, Tag(0x6C61_746E)));
        }
        None
    }

    /// The offset of the script table of script record `script`.
    fn script_table(&self, script: u16) -> (r: Option<usize>)
        requires
            self.wf(),
        ensures
            r matches Some(o) ==> o <= 0x1_FFFE,
            match spec_script_table(self.bytes(), self.script_list as int, script) {
                Some(o) => r == Some(o as usize),
                None => r is None,
            },
    {
        self.record_offset(self.script_list, script, 6, 4)
    }

    /// The first language-system record of the script whose tag is one of
    /// `tags`, trying the tags in turn.
    pub fn select_langsys(&self, script: u16, tags: &[Tag]) -> (r: Option<u16>)
        requires
            self.wf(),
        ensures
            r == spec_select_langsys(self.bytes(), self.script_list as int, script, tags@),
    {
        let s: usize = match self.script_table(script) {
            Some(s) => s,
            None => return None,
        };
        let d = self.data;
        let count: u16 = match read_u16_be(d, s + 2) {
            Some(c) => c,
            None => return None,
        };
        let ghost whole = spec_langsys_scan(d@, s as int, tags@, count as int, 0, 0);
        let mut k: usize = 0;
        while k < tags.len()
            invariant
                k <= tags@.len(),
                s <= 0x1_FFFE,
                d@ == self.bytes(),
                spec_script_table(self.bytes(), self.script_list as int, script) == Some(s as int),
                spec_u16(self.bytes(), s + 2) == Some(count),
                whole == spec_langsys_scan(d@, s as int, tags@, count as int, 0, 0),
                whole == spec_langsys_scan(d@, s as int, tags@, count as int, k as int, 0),
            decreases tags.len() - k,
        {
            let want: [u8; 4] = tags[k].to_bytes();
            assert(want@ =~= tag_seq(tags@[k as int].0));
            let mut i: u16 = 0;
            while i < count
                invariant
                    k < tags@.len(),
                    i <= count,
                    s <= 0x1_FFFE,
                    d@ == self.bytes(),
                    spec_script_table(self.bytes(), self.script_list as int, script) == Some(s as int),
                    spec_u16(self.bytes(), s + 2) == Some(count),
                    whole == spec_langsys_scan(d@, s as int, tags@, count as int, 0, 0),
                    want@ == tag_seq(tags@[k as int].0),
                    whole == spec_langsys_scan(d@, s as int, tags@, count as int, k as int, i as int),
                decreases count - i,
            {
                let at: usize = s + 4 + i as usize * 6;
                if at > d.len() || d.len() - at < 4 {
                    return None;
                }
                if d[at] == want[0] && d[at + 1] == want[1] && d[at + 2] == want[2] && d[at + 3]
                    == want[3] {
                    assert(d@.subrange(at as int, at + 4) =~= want@);
                    return Some(i);
                }
                assert(d@.subrange(at as int, at + 4) != want@) by {
                    if d@.subrange(at as int, at + 4) == want@ {
                        assert(d@.subrange(at as int, at + 4)[0] == d@[at as int]);
                        assert(d@.subrange(at as int, at + 4)[1] == d@[at + 1]);
                        assert(d@.subrange(at as int, at + 4)[2] == d@[at + 2]);
                        assert(d@.subrange(at as int, at + 4)[3] == d@[at + 3]);
                    }
                }
                i = i + 1;
            }
            k = k + 1;
        }
        None
    }

    /// The offset of the language system table: that of record `lang` of
    /// the script, or the script's default one (absent where its offset is
    /// zero).
    fn langsys_table(&self, script: u16, lang: Option<u16>) -> (r: Option<usize>)
        requires
            self.wf(),
        ensures
            r matches Some(o) ==> o <= 0x2_FFFD,
            match spec_langsys_table(self.bytes(), self.script_list as int, script, lang) {
                Some(o) => r == Some(o as usize),
                None => r is None,
            },
    {
        let s: usize = match self.script_table(script) {
            Some(s) => s,
            None => return None,
        };
        match lang {
            Some(i) => {
                let rel: usize = match read_u16_be(self.data, s + 4 + i as usize * 6 + 4) {
                    Some(v) => v as usize,
                    None => return None,
                };
                Some(s + rel)
            },
            None => {
                let rel: u16 = match read_u16_be(self.data, s) {
                    Some(v) => v,
                    None => return None,
                };
                if rel == 0 {
                    None
                } else {
                    Some(s + rel as usize)
                }
            },
        }
    }

    /// The required feature of a language system; `0xFFFF` means none.
    pub fn required_feature(&self, script: u16, lang: Option<u16>) -> (r: Option<u16>)
        requires
            self.wf(),
        ensures
            r == spec_required_feature(self.bytes(), self.script_list as int, script, lang),
    {
        let ls: usize = match self.langsys_table(script, lang) {
            Some(o) => o,
            None => return None,
        };
        match read_u16_be(self.data, ls + 2) {
            None => None,
            Some(0xFFFF) => None,
            Some(i) => Some(i),
        }
    }

    /// The `u16` values present among the first `count` entries at `base`.
    fn u16_array(&self, base: usize, count: u16) -> (r: Vec<u16>)
        requires
            base + 0x2_0000 <= usize::MAX,
        ensures
            r@ == spec_u16_array(self.bytes(), base as int, count as nat),
    {
        let d = self.data;
        let mut out: Vec<u16> = Vec::new();
        let mut i: usize = 0;
        while i < count as usize
            invariant
                i <= count,
                base + 0x2_0000 <= usize::MAX,
                d@ == self.bytes(),
                out@ == spec_u16_array(d@, base as int, i as nat),
            decreases count - i,
        {
            if let Some(v) = read_u16_be(d, base + i * 2) {
                out.push(v);
            }
            i = i + 1;
        }
        out
    }

    /// The feature indices of a language system, in order; a record that
    /// runs past the end of the data is left out.
    pub fn feature_indices(&self, script: u16, lang: Option<u16>) -> (r: Vec<u16>)
        requires
            self.wf(),
        ensures
            r@ == spec_feature_indices(self.bytes(), self.script_list as int, script, lang),
    {
        match self.langsys_table(script, lang) {
            None => Vec::new(),
            Some(ls) => {
                let count: u16 = match read_u16_be(self.data, ls + 4) {
                    Some(c) => c,
                    None => 0,
                };
                self.u16_array(ls + 6, count)
            },
        }
    }

    /// The tag of feature record `feature`.
    pub fn feature_tag(&self, feature: u16) -> (r: Option<Tag>)
        requires
            self.wf(),
        ensures
            r == spec_feature_tag(self.bytes(), self.feature_list as int, feature),
    {
        let d = self.data;
        let at: usize = self.feature_list + 2 + feature as usize * 6;
        if at > d.len() || d.len() - at < 4 {
            return None;
        }
        let b: [u8; 4] = [d[at], d[at + 1], d[at + 2], d[at + 3]];
        assert(d@.subrange(at as int, at + 4)[0] == b@[0]);
        assert(d@.subrange(at as int, at + 4)[1] == b@[1]);
        assert(d@.subrange(at as int, at + 4)[2] == b@[2]);
        assert(d@.subrange(at as int, at + 4)[3] == b@[3]);
        Some(Tag::from_bytes(&b))
    }

    /// The first feature of the language system whose tag is `tag`.
    pub fn find_feature(&self, script: u16, lang: Option<u16>, tag: Tag) -> (r: Option<u16>)
        requires
            self.wf(),
        ensures
            r == spec_first_feature(
                self.bytes(),
                self.feature_list as int,
                spec_feature_indices(self.bytes(), self.script_list as int, script, lang),
                tag,
                0,
            ),
    {
        let fs: Vec<u16> = self.feature_indices(script, lang);
        let mut k: usize = 0;
        while k < fs.len()
            invariant
                k <= fs@.len(),
                self.wf(),
                fs@ == spec_feature_indices(self.bytes(), self.script_list as int, script, lang),
                spec_first_feature(self.bytes(), self.feature_list as int, fs@, tag, 0)
                    == spec_first_feature(self.bytes(), self.feature_list as int, fs@, tag, k as int),
            decreases fs.len() - k,
        {
            if let Some(t) = self.feature_tag(fs[k]) {
                if t == tag {
                    return Some(fs[k]);
                }
            }
            k = k + 1;
        }
        None
    }

    /// The first feature record of the whole feature list whose tag is
    /// `tag`.
    pub fn find_feature_globally(&self, tag: Tag) -> (r: Option<u16>)
        requires
            self.wf(),
        ensures
            r == match spec_u16(self.bytes(), self.feature_list as int) {
                None => None,
                Some(count) => spec_first_feature_record(
                    self.bytes(),
                    self.feature_list as int,
                    tag,
                    count as int,
                    0,
                ),
            },
    {
        let count: u16 = match read_u16_be(self.data, self.feature_list) {
            Some(c) => c,
            None => return None,
        };
        let mut i: u16 = 0;
        while i < count
            invariant
                i <= count,
                self.wf(),
                spec_u16(self.bytes(), self.feature_list as int) == Some(count),
                spec_first_feature_record(self.bytes(), self.feature_list as int, tag, count as int, 0)
                    == spec_first_feature_record(
                    self.bytes(),
                    self.feature_list as int,
                    tag,
                    count as int,
                    i as int,
                ),
            decreases count - i,
        {
            if let Some(t) = self.feature_tag(i) {
                if t == tag {
                    return Some(i);
                }
            }
            i = i + 1;
        }
        None
    }

    /// The lookup indices of a feature, read from its feature table or, for
    /// a feature variation, from the substitute table at `substitute`.
    pub fn feature_lookups(&self, feature: u16, substitute: Option<usize>) -> (r: Vec<u16>)
        requires
            self.wf(),
            substitute matches Some(o) ==> o + 0x2_0004 <= usize::MAX,
        ensures
            r@ == spec_feature_lookups(self.bytes(), self.feature_list as int, feature, substitute),
    {
        let at: usize = match substitute {
            Some(off) => off,
            None => match read_u16_be(self.data, self.feature_list + 2 + feature as usize * 6 + 4) {
                Some(rel) => self.feature_list + rel as usize,
                None => return Vec::new(),
            },
        };
        let count: u16 = match read_u16_be(self.data, at + 2) {
            Some(c) => c,
            None => 0,
        };
        self.u16_array(at + 4, count)
    }
}

} // verus!