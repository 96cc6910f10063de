//! OpenType tags: four bytes packed big-endian into a `u32`, and the small
//! fixed-capacity lists of script and language tags that shaping tries in
//! turn.

use vstd::prelude::*;
use vstd::string::StrSliceExecFns;

verus! {

/// A four-byte OpenType tag, first byte most significant.
#[derive(Clone, Copy, PartialEq, Eq, Structural, Debug, Hash)]
pub struct Tag(pub u32);

/// The tag value of four bytes, first byte most significant.
pub open spec fn tag_value(b0: u8, b1: u8, b2: u8, b3: u8) -> u32 {
    ((b0 as u32) << 24u32) | ((b1 as u32) << 16u32) | ((b2 as u32) << 8u32) | (b3 as u32)
}

/// The byte of `v` at big-endian position `i`.
pub open spec fn tag_byte(v: u32, i: int) -> u8 {
    if i == 0 {
        (v >> 24u32) as u8
    } else if i == 1 {
        ((v >> 16u32) & 0xFFu32) as u8
    } else if i == 2 {
        ((v >> 8u32) & 0xFFu32) as u8
    } else {
        (v & 0xFFu32) as u8
    }
}

/// The four bytes of a tag value, first byte first.
pub open spec fn tag_seq(v: u32) -> Seq<u8> {
    seq![tag_byte(v, 0), tag_byte(v, 1), tag_byte(v, 2), tag_byte(v, 3)]
}

impl Tag {
    pub fn from_bytes(b: &[u8; 4]) -> (t: Tag)
        ensures
            t.0 == tag_value(b@[0], b@[1], b@[2], b@[3]),
    {
        let (b0, b1, b2, b3) = (b[0], b[1], b[2], b[3]);
        Tag(((b0 as u32) << 24u32) | ((b1 as u32) << 16u32) | ((b2 as u32) << 8u32) | (b3 as u32))
    }

    pub fn to_bytes(self) -> (b: [u8; 4])
        ensures
            b@.len() == 4,
            forall|i: int| 0 <= i < 4 ==> #[trigger] b@[i] == tag_byte(self.0, i),
    {
        let v: u32 = self.0;
        let b: [u8; 4] = [
            (v >> 24u32) as u8,
            ((v >> 16u32) & 0xFF) as u8,
            ((v >> 8u32) & 0xFF) as u8,
            (v & 0xFF) as u8,
        ];
        b
    }

    /// The tag `DFLT`.
    pub fn default_script() -> (t: Tag)
        ensures
            t.0 == 0x4446_4C54u32,
    {
        Tag(0x4446_4C54)
    }
}

/// Packing the bytes of a tag gives the tag back.
pub proof fn lemma_tag_bytes_roundtrip(v: u32)
    ensures
        tag_value(tag_byte(v, 0), tag_byte(v, 1), tag_byte(v, 2), tag_byte(v, 3)) == v,
{
    assert((((v >> 24u32) as u8) as u32) << 24u32 | (((((v >> 16u32) & 0xFFu32) as u8) as u32)
        << 16u32) | (((((v >> 8u32) & 0xFFu32) as u8) as u32) << 8u32) | (((v & 0xFFu32) as u8)
        as u32) == v) by (bit_vector);
}

/// Unpacking a packed tag gives its bytes back.
pub proof fn lemma_tag_value_roundtrip(b0: u8, b1: u8, b2: u8, b3: u8)
    ensures
        tag_byte(tag_value(b0, b1, b2, b3), 0) == b0,
        tag_byte(tag_value(b0, b1, b2, b3), 1) == b1,
        tag_byte(tag_value(b0, b1, b2, b3), 2) == b2,
        tag_byte(tag_value(b0, b1, b2, b3), 3) == b3,
{
    let v: u32 = tag_value(b0, b1, b2, b3);
    assert(v == ((b0 as u32) << 24u32) | ((b1 as u32) << 16u32) | ((b2 as u32) << 8u32) | (
    b3 as u32) ==> ((v >> 24u32) as u8) == b0 && (((v >> 16u32) & 0xFFu32) as u8) == b1 && (((v
        >> 8u32) & 0xFFu32) as u8) == b2 && ((v & 0xFFu32) as u8) == b3) by (bit_vector);
}

/// The Indic "v2" script tag for an ISO 15924 code given as a tag value.
pub open spec fn spec_v2_tag(iso: u32) -> Option<u32> {
    if iso == 0x4265_6E67 {
        Some(0x626E_6732u32)  // Beng -> bng2
    } else if iso == 0x4465_7661 {
        Some(0x6465_7632u32)  // Deva -> dev2
    } else if iso == 0x4775_6A72 {
        Some(0x676A_7232u32)  // Gujr -> gjr2
    } else if iso == 0x4775_7275 {
        Some(0x6775_7232u32)  // Guru -> gur2
    } else if iso == 0x4B6E_6461 {
        Some(0x6B6E_6432u32)  // Knda -> knd2
    } else if iso == 0x4D6C_796D {
        Some(0x6D6C_6D32u32)  // Mlym -> mlm2
    } else if iso == 0x4F72_7961 {
        Some(0x6F72_7932u32)  // Orya -> ory2
    } else if iso == 0x5461_6D6C {
        Some(0x746D_6C32u32)  // Taml -> tml2
    } else if iso == 0x5465_6C75 {
        Some(0x7465_6C32u32)  // Telu -> tel2
    } else if iso == 0x4D79_6D72 {
        Some(0x6D79_6D32u32)  // Mymr -> mym2
    } else {
        None
    }
}

fn v2_tag(iso: u32) -> (r: Option<Tag>)
    ensures
        r matches Some(t) ==> spec_v2_tag(iso) == Some(t.0),
        r is None ==> spec_v2_tag(iso) is None,
{
    if iso == 0x4265_6E67 {
        Some(Tag(0x626E_6732))
    } else if iso == 0x4465_7661 {
        Some(Tag(0x6465_7632))
    } else if iso == 0x4775_6A72 {
        Some(Tag(0x676A_7232))
    } else if iso == 0x4775_7275 {
        Some(Tag(0x6775_7232))
    } else if iso == 0x4B6E_6461 {
        Some(Tag(0x6B6E_6432))
    } else if iso == 0x4D6C_796D {
        Some(Tag(0x6D6C_6D32))
    } else if iso == 0x4F72_7961 {
        Some(Tag(0x6F72_7932))
    } else if iso == 0x5461_6D6C {
        Some(Tag(0x746D_6C32))
    } else if iso == 0x5465_6C75 {
        Some(Tag(0x7465_6C32))
    } else if iso == 0x4D79_6D72 {
        Some(Tag(0x6D79_6D32))
    } else {
        None
    }
}

/// The OpenType "v1" script tag of an ISO 15924 code: a few codes have
/// irregular tags, the rest lower-case their first letter.
pub open spec fn spec_v1_tag(iso: u32) -> u32 {
    if iso == 0x4C61_6F6F {
        0x6C61_6F20  // Laoo -> "lao "
    } else if iso == 0x5969_6969 {
        0x7969_2020  // Yiii -> "yi  "
    } else if iso == 0x4E6B_6F6F {
        0x6E6B_6F20  // Nkoo -> "nko "
    } else if iso == 0x5661_6969 {
        0x7661_6920  // Vaii -> "vai "
    } else if iso == 0x4869_7261 {
        0x6B61_6E61  // Hira -> "kana"
    } else {
        tag_value(
            ascii_lower(tag_byte(iso, 0)),
            tag_byte(iso, 1),
            tag_byte(iso, 2),
            tag_byte(iso, 3),
        )
    }
}

pub open spec fn ascii_lower(b: u8) -> u8 {
    if 0x41 <= b <= 0x5A {
        (b + 0x20) as u8
    } else {
        b
    }
}

fn to_ascii_lower(b: u8) -> (r: u8)
    ensures
        r == ascii_lower(b),
{
    if 0x41 <= b && b <= 0x5A {
        b + 0x20
    } else {
        b
    }
}

fn v1_tag(iso: u32) -> (r: Tag)
    ensures
        r.0 == spec_v1_tag(iso),
{
    if iso == 0x4C61_6F6F {
        Tag(0x6C61_6F20)
    } else if iso == 0x5969_6969 {
        Tag(0x7969_2020)
    } else if iso == 0x4E6B_6F6F {
        Tag(0x6E6B_6F20)
    } else if iso == 0x5661_6969 {
        Tag(0x7661_6920)
    } else if iso == 0x4869_7261 {
        Tag(0x6B61_6E61)
    } else {
        let b = Tag(iso).to_bytes();
        let lowered: [u8; 4] = [to_ascii_lower(b[0]), b[1], b[2], b[3]];
        Tag::from_bytes(&lowered)
    }
}

/// At most three tags, in the order they were pushed.
#[derive(Debug)]
pub struct Tags {
    items: [Tag; 3],
    len: usize,
}

impl View for Tags {
    type V = Seq<Tag>;

    closed spec fn view(&self) -> Seq<Tag> {
        self.items@.take(self.len as int)
    }
}

impl Tags {
    pub closed spec fn wf(&self) -> bool {
        self.len <= 3
    }

    pub fn new() -> (t: Tags)
        ensures
            t.wf(),
            t@ == Seq::<Tag>::empty(),
    {
        Tags { items: [Tag(0), Tag(0), Tag(0)], len: 0 }
    }

    /// Appends `tag` while there is room; a fourth tag is dropped.
    pub fn push(&mut self, tag: Tag)
        requires
            old(self).wf(),
        ensures
            final(self).wf(),
            old(self)@.len() < 3 ==> final(self)@ == old(self)@.push(tag),
            old(self)@.len() >= 3 ==> final(self)@ == old(self)@,
    {
        if self.len < 3 {
            self.items[self.len] = tag;
            self.len = self.len + 1;
            assert(self@ =~= old(self)@.push(tag));
        }
    }

    pub fn as_slice(&self) -> (s: &[Tag])
        requires
            self.wf(),
        ensures
            s@ == self@,
    {
        &self.items[0..self.len]
    }
}

/// The script tags to try for a script, most preferred first: `DFLT` alone
/// for a script that takes its direction from context; otherwise the newer
/// Indic tags where they exist, then the regular tag of the ISO code.
pub open spec fn spec_script_tags(iso: u32, context_dependent: bool) -> Seq<Tag> {
    if context_dependent {
        seq![Tag(0x4446_4C54)]
    } else {
        let v1 = seq![Tag(spec_v1_tag(iso))];
        match spec_v2_tag(iso) {
            Some(v2) => if v2 != 0x6D79_6D32 {
                seq![Tag((v2 & 0xFFFF_FF00u32) | 0x33u32), Tag(v2)] + v1
            } else {
                seq![Tag(v2)] + v1
            },
            None => v1,
        }
    }
}

/// The script tags for the script whose ISO 15924 code packs to `iso`.
pub fn script_tags(iso: u32, context_dependent: bool) -> (tags: Tags)
    ensures
        tags.wf(),
        tags@ == spec_script_tags(iso, context_dependent),
{
    let mut tags = Tags::new();
    if context_dependent {
        tags.push(Tag::default_script());
        return tags;
    }
    if let Some(v2) = v2_tag(iso) {
        if v2.0 != 0x6D79_6D32 {
            let mut b = v2.to_bytes();
            b[3] = 0x33;
            let v3 = Tag::from_bytes(&b);
            proof {
                let v: u32 = v2.0;
                assert(tag_value(tag_byte(v, 0), tag_byte(v, 1), tag_byte(v, 2), 0x33u8) == (v
                    & 0xFFFF_FF00u32) | 0x33u32) by (bit_vector);
            }
            tags.push(v3);
        }
        tags.push(v2);
    }
    tags.push(v1_tag(iso));
    tags
}

/// The language tags to try once the primary tag of a language is known:
/// the primary tag, then the tag a font is likely to carry in its place.
pub open spec fn spec_language_tags(primary: Option<Tag>) -> Seq<Tag> {
    match primary {
        None => Seq::empty(),
        Some(p) => if p.0 == 0x4449_5620 {
            seq![p, Tag(0x4448_5620)]  // "DIV " falls back to "DHV "
        } else if p.0 == 0x5A48_544D {
            seq![p, Tag(0x5A48_4820)]  // "ZHTM" falls back to "ZHH "
        } else {
            seq![p]
        },
    }
}

pub fn language_tags(primary: Option<Tag>) -> (tags: Tags)
    ensures
        tags.wf(),
        tags@ == spec_language_tags(primary),
{
    let mut tags = Tags::new();
    let p = match primary {
        Some(p) => p,
        None => return tags,
    };
    tags.push(p);
    if p.0 == 0x4449_5620 {
        tags.push(Tag(0x4448_5620));
    }
    if p.0 == 0x5A48_544D {
        tags.push(Tag(0x5A48_4820));
    }
    tags
}

/// Whether `pat` occurs in `s` at position `i`.
pub open spec fn occurs_at(s: Seq<char>, pat: Seq<char>, i: int) -> bool {
    0 <= i && i + pat.len() <= s.len() && s.subrange(i, i + pat.len()) == pat
}

/// Whether `pat` occurs in `s` at or after position `from`.
pub open spec fn occurs_from(s: Seq<char>, pat: Seq<char>, from: int) -> bool {
    exists|i: int| from <= i && #[trigger] occurs_at(s, pat, i)
}

/// The OpenType language tag of a Chinese language subtag, lower-cased:
/// `zh` alone or followed by `-` subtags. Simplified (`-hans`) comes first,
/// then Macao, Hong Kong, and traditional (`-hant`, `-tw`); plain Chinese
/// is simplified.
pub open spec fn spec_normalize_chinese(s: Seq<char>) -> Option<Seq<u8>> {
    if !(s.len() >= 2 && s[0] == 'z' && s[1] == 'h') {
        None
    } else if s.len() > 2 && s[2] != '-' {
        None
    } else if occurs_from(s, seq!['-', 'h', 'a', 'n', 's'], 2) {
        Some(seq![0x5Au8, 0x48, 0x53, 0x20])
    } else if occurs_from(s, seq!['-', 'm', 'o'], 2) {
        Some(seq![0x5Au8, 0x48, 0x54, 0x4D])
    } else if occurs_from(s, seq!['-', 'h', 'k'], 2) {
        Some(seq![0x5Au8, 0x48, 0x48, 0x20])
    } else if occurs_from(s, seq!['-', 'h', 'a', 'n', 't'], 2) || occurs_from(s, seq!['-', 't', 'w'], 2) {
        Some(seq![0x5Au8, 0x48, 0x54, 0x20])
    } else {
        Some(seq![0x5Au8, 0x48, 0x53, 0x20])
    }
}

/// Whether `pat` occurs in `s` at or after `from`.
fn occurs(s: &str, n: usize, pat: &[char], from: usize) -> (r: bool)
    requires
        n == s@.len(),
        from <= n,
    ensures
        r == occurs_from(s@, pat@, from as int),
{
    let m: usize = pat.len();
    if m > n {
        assert forall|i: int| from <= i implies !#[trigger] occurs_at(s@, pat@, i) by {}
        return false;
    }
    let mut i: usize = from;
    while i <= n - m
        invariant
            from <= i,
            m == pat@.len(),
            m <= n == s@.len(),
            forall|j: int| from <= j < i ==> !#[trigger] occurs_at(s@, pat@, j),
        decreases n - i,
    {
        let mut k: usize = 0;
        let mut same: bool = true;
        while k < m
            invariant
                k <= m,
                i + m <= n == s@.len(),
                m == pat@.len(),
                same == forall|q: int| 0 <= q < k ==> #[trigger] s@[i + q] == pat@[q],
            decreases m - k,
        {
            if s.get_char(i + k) != pat[k] {
                same = false;
            }
            k = k + 1;
        }
        if same {
            assert forall|q: int| 0 <= q < m implies #[trigger] s@.subrange(i as int, i + m)[q] == pat@[q] by {
                assert(s@[i + q] == pat@[q]);
            }
            assert(s@.subrange(i as int, i + m) =~= pat@);
            assert(occurs_at(s@, pat@, i as int));
            return true;
        }
        proof {
            if occurs_at(s@, pat@, i as int) {
                assert forall|q: int| 0 <= q < m implies #[trigger] s@[i + q] == pat@[q] by {
                    assert(s@.subrange(i as int, i + m)[q] == s@[i + q]);
                }
            }
        }
        i = i + 1;
    }
    assert forall|j: int| from <= j implies !#[trigger] occurs_at(s@, pat@, j) by {}
    false
}

/// The OpenType language tag bytes of a lower-cased Chinese language tag,
/// `None` for any other language.
pub fn normalize_chinese(lower: &str) -> (r: Option<[u8; 4]>)
    ensures
        match spec_normalize_chinese(lower@) {
            None => r is None,
            Some(t) => r matches Some(b) && b@ == t,
        },
{
    let n: usize = lower.unicode_len();
    if n < 2 || lower.get_char(0) != 'z' || lower.get_char(1) != 'h' {
        return None;
    }
    if n > 2 && lower.get_char(2) != '-' {
        return None;
    }
    let hans: [char; 5] = ['-', 'h', 'a', 'n', 's'];
    let mo: [char; 3] = ['-', 'm', 'o'];
    let hk: [char; 3] = ['-', 'h', 'k'];
    let hant: [char; 5] = ['-', 'h', 'a', 'n', 't'];
    let tw: [char; 3] = ['-', 't', 'w'];
    assert(hans@ =~= seq!['-', 'h', 'a', 'n', 's']);
    assert(mo@ =~= seq!['-', 'm', 'o']);
    assert(hk@ =~= seq!['-', 'h', 'k']);
    assert(hant@ =~= seq!['-', 'h', 'a', 'n', 't']);
    assert(tw@ =~= seq!['-', 't', 'w']);
    let simplified: [u8; 4] = [0x5A, 0x48, 0x53, 0x20];
    assert(simplified@ =~= seq![0x5Au8, 0x48, 0x53, 0x20]);
    if occurs(lower, n, hans.as_slice(), 2) {
        return Some(simplified);
    }
    if occurs(lower, n, mo.as_slice(), 2) {
        let t: [u8; 4] = [0x5A, 0x48, 0x54, 0x4D];
        assert(t@ =~= seq![0x5Au8, 0x48, 0x54, 0x4D]);
        return Some(t);
    }
    if occurs(lower, n, hk.as_slice(), 2) {
        let t: [u8; 4] = [0x5A, 0x48, 0x48, 0x20];
        assert(t@ =~= seq![0x5Au8, 0x48, 0x48, 0x20]);
        return Some(t);
    }
    if occurs(lower, n, hant.as_slice(), 2) || occurs(lower, n, tw.as_slice(), 2) {
        let t: [u8; 4] = [0x5A, 0x48, 0x54, 0x20];
        assert(t@ =~= seq![0x5Au8, 0x48, 0x54, 0x20]);
        return Some(t);
    }
    Some(simplified)
}


/// The tag values behind the Indic script tags, as bytes.
proof fn lemma_indic_tag_bytes()
    by (bit_vector)
    ensures
        spec_v1_tag(0x4C616F6Fu32) == 0x6C616F20u32,  // Laoo -> lao
        spec_v1_tag(0x59696969u32) == 0x79692020u32,  // Yiii -> yi
        spec_v1_tag(0x4E6B6F6Fu32) == 0x6E6B6F20u32,  // Nkoo -> nko
        spec_v1_tag(0x56616969u32) == 0x76616920u32,  // Vaii -> vai
        spec_v1_tag(0x48697261u32) == 0x6B616E61u32,  // Hira -> kana
        spec_v1_tag(0x4C61746Eu32) == 0x6C61746Eu32,  // Latn -> latn
        spec_v1_tag(0x41726162u32) == 0x61726162u32,  // Arab -> arab
        spec_v1_tag(0x4D796D72u32) == 0x6D796D72u32,  // Mymr -> mymr
        spec_v1_tag(0x42656E67u32) == 0x62656E67u32,  // Beng -> beng
        (0x626E6732u32 & 0xFFFF_FF00u32) | 0x33u32 == 0x626E6733u32,  // bng2 -> bng3
        spec_v1_tag(0x44657661u32) == 0x64657661u32,  // Deva -> deva
        (0x64657632u32 & 0xFFFF_FF00u32) | 0x33u32 == 0x64657633u32,  // dev2 -> dev3
        spec_v1_tag(0x47756A72u32) == 0x67756A72u32,  // Gujr -> gujr
        (0x676A7232u32 & 0xFFFF_FF00u32) | 0x33u32 == 0x676A7233u32,  // gjr2 -> gjr3
        spec_v1_tag(0x47757275u32) == 0x67757275u32,  // Guru -> guru
        (0x67757232u32 & 0xFFFF_FF00u32) | 0x33u32 == 0x67757233u32,  // gur2 -> gur3
        spec_v1_tag(0x4B6E6461u32) == 0x6B6E6461u32,  // Knda -> knda
        (0x6B6E6432u32 & 0xFFFF_FF00u32) | 0x33u32 == 0x6B6E6433u32,  // knd2 -> knd3
        spec_v1_tag(0x4D6C796Du32) == 0x6D6C796Du32,  // Mlym -> mlym
        (0x6D6C6D32u32 & 0xFFFF_FF00u32) | 0x33u32 == 0x6D6C6D33u32,  // mlm2 -> mlm3
        spec_v1_tag(0x4F727961u32) == 0x6F727961u32,  // Orya -> orya
        (0x6F727932u32 & 0xFFFF_FF00u32) | 0x33u32 == 0x6F727933u32,  // ory2 -> ory3
        spec_v1_tag(0x54616D6Cu32) == 0x74616D6Cu32,  // Taml -> taml
        (0x746D6C32u32 & 0xFFFF_FF00u32) | 0x33u32 == 0x746D6C33u32,  // tml2 -> tml3
        spec_v1_tag(0x54656C75u32) == 0x74656C75u32,  // Telu -> telu
        (0x74656C32u32 & 0xFFFF_FF00u32) | 0x33u32 == 0x74656C33u32,  // tel2 -> tel3
{
}

/// The nine Indic scripts with newer shaping are tried under three tags,
/// in this order: the third-version tag, the second-version tag (the same
/// three letters, ending in '3' and '2'), and the original tag of the
/// script.
pub proof fn lemma_indic_script_tags()
    ensures
        spec_script_tags(0x42656E67u32, false) == seq![Tag(0x626E6733u32), Tag(0x626E6732u32), Tag(0x62656E67u32)],  // Beng: bng3, bng2, beng
        spec_script_tags(0x44657661u32, false) == seq![Tag(0x64657633u32), Tag(0x64657632u32), Tag(0x64657661u32)],  // Deva: dev3, dev2, deva
        spec_script_tags(0x47756A72u32, false) == seq![Tag(0x676A7233u32), Tag(0x676A7232u32), Tag(0x67756A72u32)],  // Gujr: gjr3, gjr2, gujr
        spec_script_tags(0x47757275u32, false) == seq![Tag(0x67757233u32), Tag(0x67757232u32), Tag(0x67757275u32)],  // Guru: gur3, gur2, guru
        spec_script_tags(0x4B6E6461u32, false) == seq![Tag(0x6B6E6433u32), Tag(0x6B6E6432u32), Tag(0x6B6E6461u32)],  // Knda: knd3, knd2, knda
        spec_script_tags(0x4D6C796Du32, false) == seq![Tag(0x6D6C6D33u32), Tag(0x6D6C6D32u32), Tag(0x6D6C796Du32)],  // Mlym: mlm3, mlm2, mlym
        spec_script_tags(0x4F727961u32, false) == seq![Tag(0x6F727933u32), Tag(0x6F727932u32), Tag(0x6F727961u32)],  // Orya: ory3, ory2, orya
        spec_script_tags(0x54616D6Cu32, false) == seq![Tag(0x746D6C33u32), Tag(0x746D6C32u32), Tag(0x74616D6Cu32)],  // Taml: tml3, tml2, taml
        spec_script_tags(0x54656C75u32, false) == seq![Tag(0x74656C33u32), Tag(0x74656C32u32), Tag(0x74656C75u32)],  // Telu: tel3, tel2, telu
{
    lemma_indic_tag_bytes();
}


/// Other scripts are tried under one tag: the ISO code in lower case, with
/// the exceptions of Lao, Yi, N'Ko and Vai (padded three-letter and
/// two-letter tags) and Hiragana (which shares the kana tag); Myanmar has
/// its second-version tag before it, but no third; a script taking its
/// direction from context gets the default script tag alone.
pub proof fn lemma_other_script_tags(iso: u32)
    ensures
        spec_script_tags(0x4C616F6Fu32, false) == seq![Tag(0x6C616F20u32)],  // Laoo: 'lao '
        spec_script_tags(0x59696969u32, false) == seq![Tag(0x79692020u32)],  // Yiii: 'yi  '
        spec_script_tags(0x4E6B6F6Fu32, false) == seq![Tag(0x6E6B6F20u32)],  // Nkoo: 'nko '
        spec_script_tags(0x56616969u32, false) == seq![Tag(0x76616920u32)],  // Vaii: 'vai '
        spec_script_tags(0x48697261u32, false) == seq![Tag(0x6B616E61u32)],  // Hira: 'kana'
        spec_script_tags(0x4C61746Eu32, false) == seq![Tag(0x6C61746Eu32)],  // Latn: 'latn'
        spec_script_tags(0x41726162u32, false) == seq![Tag(0x61726162u32)],  // Arab: 'arab'
        spec_script_tags(0x4D796D72u32, false) == seq![Tag(0x6D796D32u32), Tag(0x6D796D72u32)],  // Mymr: mym2, mymr
        spec_script_tags(iso, true) == seq![Tag(0x44464C54u32)],
{
    lemma_indic_tag_bytes();
}


/// A font may carry the tag of a related language in place of the primary
/// one: Dhivehi's "DIV " falls back to "DHV ", traditional Chinese for Macao
/// "ZHTM" to "ZHH "; any other tag stands alone.
pub proof fn lemma_language_fallbacks(t: Tag)
    ensures
        spec_language_tags(Some(Tag(0x4449_5620))) == seq![Tag(0x4449_5620), Tag(0x4448_5620)],
        spec_language_tags(Some(Tag(0x5A48_544D))) == seq![Tag(0x5A48_544D), Tag(0x5A48_4820)],
        t.0 != 0x4449_5620 && t.0 != 0x5A48_544D ==> spec_language_tags(Some(t)) == seq![t],
        spec_language_tags(None) == Seq::<Tag>::empty(),
{
}

} // verus!
