//! A small Bloom-style filter over glyph ids. Three 256-bit masks, each
//! indexed by a different slice of the glyph id, record which glyphs a
//! lookup may touch; a glyph whose bits are not all set is certainly absent.

use vstd::prelude::*;

verus! {

/// Number of 64-bit words in one mask.
pub const MASK_WORDS: usize = 4;

/// Number of bits in one mask.
pub const MASK_BITS: usize = 256;

/// The shift applied to a glyph id for mask `k`.
pub open spec fn shift_of(k: int) -> u32 {
    if k == 0 {
        4
    } else if k == 1 {
        0
    } else {
        9
    }
}

/// The bit position of `glyph` in mask `k`.
pub open spec fn slot(glyph: u16, k: int) -> int {
    (((glyph as usize) >> (shift_of(k) as usize)) & 255usize) as int
}

/// Whether bit `at` of the cyclic span `lo ..= hi` (positions taken modulo
/// 256) is covered.
pub open spec fn in_span(lo: int, hi: int, at: int) -> bool {
    ||| hi - lo >= 255
    ||| (lo % 256 <= hi % 256 && lo % 256 <= at <= hi % 256)
    ||| (lo % 256 > hi % 256 && (at >= lo % 256 || at <= hi % 256))
}

pub open spec fn bit_of(w: u64, b: int) -> bool {
    (w >> (b as u64)) & 1u64 == 1u64
}

#[derive(Clone, Copy, Debug)]
pub struct Digest {
    masks: [u64; 12],
}

proof fn lemma_or_bit(x: u64, b: u64, j: u64)
    requires
        b < 64,
        j < 64,
    ensures
        (((x | (1u64 << b)) >> j) & 1u64 == 1u64) == (((x >> j) & 1u64 == 1u64) || j == b),
{
    assert((((x | (1u64 << b)) >> j) & 1u64 == 1u64) == (((x >> j) & 1u64 == 1u64) || j == b))
        by (bit_vector)
        requires
            b < 64,
            j < 64,
    ;
}

proof fn lemma_or_bits(x: u64, y: u64, j: u64)
    requires
        j < 64,
    ensures
        (((x | y) >> j) & 1u64 == 1u64) == (((x >> j) & 1u64 == 1u64) || ((y >> j) & 1u64
            == 1u64)),
{
    assert((((x | y) >> j) & 1u64 == 1u64) == (((x >> j) & 1u64 == 1u64) || ((y >> j) & 1u64
        == 1u64))) by (bit_vector);
}

/// A nonzero word has a set bit.
proof fn lemma_nonzero_has_bit(z: u64) -> (j: u64)
    requires
        z != 0,
    ensures
        j < 64,
        (z >> j) & 1u64 == 1u64,
    decreases z,
{
    if z & 1u64 == 1u64 {
        assert((z >> 0u64) & 1u64 == z & 1u64) by (bit_vector);
        0
    } else {
        assert(z & 1u64 != 1u64 && z != 0 ==> (z >> 1u64) != 0 && (z >> 1u64) < z) by (bit_vector);
        let y: u64 = z >> 1u64;
        let j = lemma_nonzero_has_bit(y);
        assert(y == z >> 1u64 && j < 64 && (y >> j) & 1u64 == 1u64 ==> j < 63 && (z >> (j + 1) as u64)
            & 1u64 == 1u64) by (bit_vector);
        (j + 1) as u64
    }
}

proof fn lemma_and_bit(x: u64, y: u64, j: u64)
    requires
        j < 64,
    ensures
        (((x & y) >> j) & 1u64 == 1u64) == (((x >> j) & 1u64) == 1u64 && (y >> j) & 1u64 == 1u64),
        x & y == 0 ==> !(((x >> j) & 1u64) == 1u64 && (y >> j) & 1u64 == 1u64),
{
    assert((((x & y) >> j) & 1u64 == 1u64) == (((x >> j) & 1u64) == 1u64 && (y >> j) & 1u64
        == 1u64)) by (bit_vector);
    assert(x & y == 0 ==> !(((x >> j) & 1u64) == 1u64 && (y >> j) & 1u64 == 1u64)) by (bit_vector);
}

proof fn lemma_max_bit(j: u64)
    requires
        j < 64,
    ensures
        ((0xFFFF_FFFF_FFFF_FFFFu64 >> j) & 1u64) == 1u64,
        ((0u64 >> j) & 1u64) != 1u64,
{
    assert((j < 64 ==> ((0xFFFF_FFFF_FFFF_FFFFu64 >> j) & 1u64) == 1u64) && ((0u64 >> j) & 1u64) != 1u64)
        by (bit_vector);
}

/// The bits `from ..= to` of a 64-bit word.
proof fn lemma_word_span(from: u64, to: u64, j: u64)
    requires
        from <= to < 64,
        j < 64,
    ensures
        to - from + 1 == 64 ==> ((0xFFFF_FFFF_FFFF_FFFFu64 >> j) & 1u64 == 1u64),
        to - from + 1 < 64 ==> ((((((1u64 << (to - from + 1) as u64) - 1u64) as u64) << from) >> j) & 1u64
            == 1u64) == (from <= j <= to),
{
    lemma_max_bit(j);
    let w: u64 = (to - from + 1) as u64;
    if w < 64 {
        assert(((((((1u64 << w) - 1u64) as u64) << from) >> j) & 1u64 == 1u64) == (from <= j && j < from
            + w)) by (bit_vector)
            requires
                w < 64,
                from + w <= 64,
                j < 64,
        ;
    }
}

fn word_span(from: usize, to: usize) -> (r: u64)
    requires
        from <= to < 64,
    ensures
        forall|j: int| 0 <= j < 64 ==> #[trigger] bit_of(r, j) == (from <= j <= to),
{
    let width: usize = to - from + 1;
    let r: u64 = if width == 64 {
        u64::MAX
    } else {
        assert(width < 64 ==> (1u64 << width as u64) >= 1) by (bit_vector);
        ((1u64 << width as u64) - 1) << from as u64
    };
    assert forall|j: int| 0 <= j < 64 implies #[trigger] bit_of(r, j) == (from <= j <= to) by {
        lemma_word_span(from as u64, to as u64, j as u64);
    }
    r
}

/// Two words with the same bits are equal.
proof fn lemma_word_bits(x: u64, y: u64)
    requires
        forall|j: int| 0 <= j < 64 ==> #[trigger] bit_of(x, j) == bit_of(y, j),
    ensures
        x == y,
{
    assert(bit_of(x, 0) == bit_of(y, 0));
    assert(bit_of(x, 1) == bit_of(y, 1));
    assert(bit_of(x, 2) == bit_of(y, 2));
    assert(bit_of(x, 3) == bit_of(y, 3));
    assert(bit_of(x, 4) == bit_of(y, 4));
    assert(bit_of(x, 5) == bit_of(y, 5));
    assert(bit_of(x, 6) == bit_of(y, 6));
    assert(bit_of(x, 7) == bit_of(y, 7));
    assert(bit_of(x, 8) == bit_of(y, 8));
    assert(bit_of(x, 9) == bit_of(y, 9));
    assert(bit_of(x, 10) == bit_of(y, 10));
    assert(bit_of(x, 11) == bit_of(y, 11));
    assert(bit_of(x, 12) == bit_of(y, 12));
    assert(bit_of(x, 13) == bit_of(y, 13));
    assert(bit_of(x, 14) == bit_of(y, 14));
    assert(bit_of(x, 15) == bit_of(y, 15));
    assert(bit_of(x, 16) == bit_of(y, 16));
    assert(bit_of(x, 17) == bit_of(y, 17));
    assert(bit_of(x, 18) == bit_of(y, 18));
    assert(bit_of(x, 19) == bit_of(y, 19));
    assert(bit_of(x, 20) == bit_of(y, 20));
    assert(bit_of(x, 21) == bit_of(y, 21));
    assert(bit_of(x, 22) == bit_of(y, 22));
    assert(bit_of(x, 23) == bit_of(y, 23));
    assert(bit_of(x, 24) == bit_of(y, 24));
    assert(bit_of(x, 25) == bit_of(y, 25));
    assert(bit_of(x, 26) == bit_of(y, 26));
    assert(bit_of(x, 27) == bit_of(y, 27));
    assert(bit_of(x, 28) == bit_of(y, 28));
    assert(bit_of(x, 29) == bit_of(y, 29));
    assert(bit_of(x, 30) == bit_of(y, 30));
    assert(bit_of(x, 31) == bit_of(y, 31));
    assert(bit_of(x, 32) == bit_of(y, 32));
    assert(bit_of(x, 33) == bit_of(y, 33));
    assert(bit_of(x, 34) == bit_of(y, 34));
    assert(bit_of(x, 35) == bit_of(y, 35));
    assert(bit_of(x, 36) == bit_of(y, 36));
    assert(bit_of(x, 37) == bit_of(y, 37));
    assert(bit_of(x, 38) == bit_of(y, 38));
    assert(bit_of(x, 39) == bit_of(y, 39));
    assert(bit_of(x, 40) == bit_of(y, 40));
    assert(bit_of(x, 41) == bit_of(y, 41));
    assert(bit_of(x, 42) == bit_of(y, 42));
    assert(bit_of(x, 43) == bit_of(y, 43));
    assert(bit_of(x, 44) == bit_of(y, 44));
    assert(bit_of(x, 45) == bit_of(y, 45));
    assert(bit_of(x, 46) == bit_of(y, 46));
    assert(bit_of(x, 47) == bit_of(y, 47));
    assert(bit_of(x, 48) == bit_of(y, 48));
    assert(bit_of(x, 49) == bit_of(y, 49));
    assert(bit_of(x, 50) == bit_of(y, 50));
    assert(bit_of(x, 51) == bit_of(y, 51));
    assert(bit_of(x, 52) == bit_of(y, 52));
    assert(bit_of(x, 53) == bit_of(y, 53));
    assert(bit_of(x, 54) == bit_of(y, 54));
    assert(bit_of(x, 55) == bit_of(y, 55));
    assert(bit_of(x, 56) == bit_of(y, 56));
    assert(bit_of(x, 57) == bit_of(y, 57));
    assert(bit_of(x, 58) == bit_of(y, 58));
    assert(bit_of(x, 59) == bit_of(y, 59));
    assert(bit_of(x, 60) == bit_of(y, 60));
    assert(bit_of(x, 61) == bit_of(y, 61));
    assert(bit_of(x, 62) == bit_of(y, 62));
    assert(bit_of(x, 63) == bit_of(y, 63));
    assert(x == y) by (bit_vector)
        requires
            ((x >> 0u64) & 1u64 == 1u64) == ((y >> 0u64) & 1u64 == 1u64),
            ((x >> 1u64) & 1u64 == 1u64) == ((y >> 1u64) & 1u64 == 1u64),
            ((x >> 2u64) & 1u64 == 1u64) == ((y >> 2u64) & 1u64 == 1u64),
            ((x >> 3u64) & 1u64 == 1u64) == ((y >> 3u64) & 1u64 == 1u64),
            ((x >> 4u64) & 1u64 == 1u64) == ((y >> 4u64) & 1u64 == 1u64),
            ((x >> 5u64) & 1u64 == 1u64) == ((y >> 5u64) & 1u64 == 1u64),
            ((x >> 6u64) & 1u64 == 1u64) == ((y >> 6u64) & 1u64 == 1u64),
            ((x >> 7u64) & 1u64 == 1u64) == ((y >> 7u64) & 1u64 == 1u64),
            ((x >> 8u64) & 1u64 == 1u64) == ((y >> 8u64) & 1u64 == 1u64),
            ((x >> 9u64) & 1u64 == 1u64) == ((y >> 9u64) & 1u64 == 1u64),
            ((x >> 10u64) & 1u64 == 1u64) == ((y >> 10u64) & 1u64 == 1u64),
            ((x >> 11u64) & 1u64 == 1u64) == ((y >> 11u64) & 1u64 == 1u64),
            ((x >> 12u64) & 1u64 == 1u64) == ((y >> 12u64) & 1u64 == 1u64),
            ((x >> 13u64) & 1u64 == 1u64) == ((y >> 13u64) & 1u64 == 1u64),
            ((x >> 14u64) & 1u64 == 1u64) == ((y >> 14u64) & 1u64 == 1u64),
            ((x >> 15u64) & 1u64 == 1u64) == ((y >> 15u64) & 1u64 == 1u64),
            ((x >> 16u64) & 1u64 == 1u64) == ((y >> 16u64) & 1u64 == 1u64),
            ((x >> 17u64) & 1u64 == 1u64) == ((y >> 17u64) & 1u64 == 1u64),
            ((x >> 18u64) & 1u64 == 1u64) == ((y >> 18u64) & 1u64 == 1u64),
            ((x >> 19u64) & 1u64 == 1u64) == ((y >> 19u64) & 1u64 == 1u64),
            ((x >> 20u64) & 1u64 == 1u64) == ((y >> 20u64) & 1u64 == 1u64),
            ((x >> 21u64) & 1u64 == 1u64) == ((y >> 21u64) & 1u64 == 1u64),
            ((x >> 22u64) & 1u64 == 1u64) == ((y >> 22u64) & 1u64 == 1u64),
            ((x >> 23u64) & 1u64 == 1u64) == ((y >> 23u64) & 1u64 == 1u64),
            ((x >> 24u64) & 1u64 == 1u64) == ((y >> 24u64) & 1u64 == 1u64),
            ((x >> 25u64) & 1u64 == 1u64) == ((y >> 25u64) & 1u64 == 1u64),
            ((x >> 26u64) & 1u64 == 1u64) == ((y >> 26u64) & 1u64 == 1u64),
            ((x >> 27u64) & 1u64 == 1u64) == ((y >> 27u64) & 1u64 == 1u64),
            ((x >> 28u64) & 1u64 == 1u64) == ((y >> 28u64) & 1u64 == 1u64),
            ((x >> 29u64) & 1u64 == 1u64) == ((y >> 29u64) & 1u64 == 1u64),
            ((x >> 30u64) & 1u64 == 1u64) == ((y >> 30u64) & 1u64 == 1u64),
            ((x >> 31u64) & 1u64 == 1u64) == ((y >> 31u64) & 1u64 == 1u64),
            ((x >> 32u64) & 1u64 == 1u64) == ((y >> 32u64) & 1u64 == 1u64),
            ((x >> 33u64) & 1u64 == 1u64) == ((y >> 33u64) & 1u64 == 1u64),
            ((x >> 34u64) & 1u64 == 1u64) == ((y >> 34u64) & 1u64 == 1u64),
            ((x >> 35u64) & 1u64 == 1u64) == ((y >> 35u64) & 1u64 == 1u64),
            ((x >> 36u64) & 1u64 == 1u64) == ((y >> 36u64) & 1u64 == 1u64),
            ((x >> 37u64) & 1u64 == 1u64) == ((y >> 37u64) & 1u64 == 1u64),
            ((x >> 38u64) & 1u64 == 1u64) == ((y >> 38u64) & 1u64 == 1u64),
            ((x >> 39u64) & 1u64 == 1u64) == ((y >> 39u64) & 1u64 == 1u64),
            ((x >> 40u64) & 1u64 == 1u64) == ((y >> 40u64) & 1u64 == 1u64),
            ((x >> 41u64) & 1u64 == 1u64) == ((y >> 41u64) & 1u64 == 1u64),
            ((x >> 42u64) & 1u64 == 1u64) == ((y >> 42u64) & 1u64 == 1u64),
            ((x >> 43u64) & 1u64 == 1u64) == ((y >> 43u64) & 1u64 == 1u64),
            ((x >> 44u64) & 1u64 == 1u64) == ((y >> 44u64) & 1u64 == 1u64),
            ((x >> 45u64) & 1u64 == 1u64) == ((y >> 45u64) & 1u64 == 1u64),
            ((x >> 46u64) & 1u64 == 1u64) == ((y >> 46u64) & 1u64 == 1u64),
            ((x >> 47u64) & 1u64 == 1u64) == ((y >> 47u64) & 1u64 == 1u64),
            ((x >> 48u64) & 1u64 == 1u64) == ((y >> 48u64) & 1u64 == 1u64),
            ((x >> 49u64) & 1u64 == 1u64) == ((y >> 49u64) & 1u64 == 1u64),
            ((x >> 50u64) & 1u64 == 1u64) == ((y >> 50u64) & 1u64 == 1u64),
            ((x >> 51u64) & 1u64 == 1u64) == ((y >> 51u64) & 1u64 == 1u64),
            ((x >> 52u64) & 1u64 == 1u64) == ((y >> 52u64) & 1u64 == 1u64),
            ((x >> 53u64) & 1u64 == 1u64) == ((y >> 53u64) & 1u64 == 1u64),
            ((x >> 54u64) & 1u64 == 1u64) == ((y >> 54u64) & 1u64 == 1u64),
            ((x >> 55u64) & 1u64 == 1u64) == ((y >> 55u64) & 1u64 == 1u64),
            ((x >> 56u64) & 1u64 == 1u64) == ((y >> 56u64) & 1u64 == 1u64),
            ((x >> 57u64) & 1u64 == 1u64) == ((y >> 57u64) & 1u64 == 1u64),
            ((x >> 58u64) & 1u64 == 1u64) == ((y >> 58u64) & 1u64 == 1u64),
            ((x >> 59u64) & 1u64 == 1u64) == ((y >> 59u64) & 1u64 == 1u64),
            ((x >> 60u64) & 1u64 == 1u64) == ((y >> 60u64) & 1u64 == 1u64),
            ((x >> 61u64) & 1u64 == 1u64) == ((y >> 61u64) & 1u64 == 1u64),
            ((x >> 62u64) & 1u64 == 1u64) == ((y >> 62u64) & 1u64 == 1u64),
            ((x >> 63u64) & 1u64 == 1u64) == ((y >> 63u64) & 1u64 == 1u64),
    ;
}

impl Digest {
    /// Whether bit `at` of mask `k` is set.
    pub closed spec fn holds(self, k: int, at: int) -> bool {
        bit_of(self.masks[k * 4 + at / 64], at % 64)
    }

    /// Digests with the same bits are the same digest.
    pub proof fn lemma_bits_determine(a: Digest, b: Digest)
        requires
            forall|k: int, at: int| 0 <= k < 3 && 0 <= at < 256 ==> #[trigger] a.holds(k, at) == b.holds(k, at),
        ensures
            a == b,
    {
        assert forall|w: int| 0 <= w < 12 implies a.masks[w] == b.masks[w] by {
            let k = w / 4;
            let base = (w % 4) * 64;
            assert forall|j: int| 0 <= j < 64 implies #[trigger] bit_of(a.masks[w], j) == bit_of(b.masks[w], j) by {
                assert(a.holds(k, base + j) == b.holds(k, base + j));
                assert(k * 4 + (base + j) / 64 == w);
                assert((base + j) % 64 == j);
            }
            lemma_word_bits(a.masks[w], b.masks[w]);
        }
        assert(a.masks =~= b.masks);
    }

    /// The empty digest admits no glyph, meets no digest, and is the
    /// identity of union: adding it to a digest leaves every bit as it was.
    pub proof fn lemma_empty_identity(e: Digest, d: Digest)
        requires
            e.is_empty_spec(),
        ensures
            forall|g: u16| !#[trigger] e.covers(g),
            forall|k: int| 0 <= k < 3 ==> !#[trigger] e.shares(d, k) && !d.shares(e, k),
    {
        assert forall|g: u16| !#[trigger] e.covers(g) by {
            lemma_slot_bound(g, 0);
            assert(!e.holds(0, slot(g, 0)));
        }
    }

    /// Whether every mask has the bit of `glyph`: the digest may contain it.
    pub open spec fn covers(self, glyph: u16) -> bool {
        forall|k: int| 0 <= k < 3 ==> #[trigger] self.holds(k, slot(glyph, k))
    }

    /// Mask `k` of both digests has some bit in common.
    pub open spec fn shares(self, other: Digest, k: int) -> bool {
        exists|at: int| 0 <= at < 256 && #[trigger] self.holds(k, at) && other.holds(k, at)
    }

    /// No bit is set.
    pub open spec fn is_empty_spec(self) -> bool {
        forall|k: int, at: int| 0 <= k < 3 && 0 <= at < 256 ==> !#[trigger] self.holds(k, at)
    }

    /// Every bit is set.
    pub open spec fn is_full_spec(self) -> bool {
        forall|k: int, at: int| 0 <= k < 3 && 0 <= at < 256 ==> #[trigger] self.holds(k, at)
    }

    pub fn new() -> (d: Digest)
        ensures
            d.is_empty_spec(),
    {
        let d = Digest { masks: [0u64; 12] };
        assert forall|k: int, at: int| 0 <= k < 3 && 0 <= at < 256 implies !#[trigger] d.holds(
            k,
            at,
        ) by {
            lemma_max_bit((at % 64) as u64);
        }
        d
    }

    pub fn full() -> (d: Digest)
        ensures
            d.is_full_spec(),
    {
        let d = Digest { masks: [u64::MAX; 12] };
        assert forall|k: int, at: int| 0 <= k < 3 && 0 <= at < 256 implies #[trigger] d.holds(
            k,
            at,
        ) by {
            lemma_max_bit((at % 64) as u64);
        }
        d
    }

    /// The position of `glyph` in mask `k`.
    fn slot_of(glyph: u16, k: usize) -> (r: usize)
        requires
            k < 3,
        ensures
            r == slot(glyph, k as int),
            r < 256,
    {
        let shift: usize = if k == 0 {
            4
        } else if k == 1 {
            0
        } else {
            9
        };
        let at: usize = ((glyph as usize) >> shift) & (MASK_BITS - 1);
        assert(at < 256) by (bit_vector)
            requires
                at == ((glyph as usize) >> shift) & 255usize,
        ;
        at
    }

    /// The position of `glyph` in mask `k`, as a word index and a one-bit mask.
    fn bit(glyph: u16, k: usize) -> (r: (usize, u64))
        requires
            k < 3,
        ensures
            r.0 == slot(glyph, k as int) / 64,
            r.0 < 4,
            r.1 == 1u64 << (slot(glyph, k as int) % 64) as u64,
    {
        let at: usize = Self::slot_of(glyph, k);
        (at / 64, 1u64 << (at % 64) as u64)
    }

    /// Sets bit `at` of mask `k`.
    fn set_bit(&mut self, k: usize, at: usize)
        requires
            k < 3,
            at < 256,
        ensures
            forall|k2: int, at2: int|
                0 <= k2 < 3 && 0 <= at2 < 256 ==> #[trigger] final(self).holds(k2, at2) == (old(
                    self,
                ).holds(k2, at2) || (k2 == k && at2 == at)),
    {
        let i: usize = k * 4 + at / 64;
        let b: u64 = 1u64 << (at % 64) as u64;
        let w: u64 = self.masks[i];
        self.masks[i] = w | b;
        assert forall|k2: int, at2: int| 0 <= k2 < 3 && 0 <= at2 < 256 implies #[trigger] self.holds(
            k2,
            at2,
        ) == (old(self).holds(k2, at2) || (k2 == k && at2 == at)) by {
            if k2 * 4 + at2 / 64 == i {
                lemma_or_bit(w, (at % 64) as u64, (at2 % 64) as u64);
            }
        }
    }

    /// Records `glyph`.
    pub fn add(&mut self, glyph: u16)
        ensures
            forall|k: int, at: int|
                0 <= k < 3 && 0 <= at < 256 ==> #[trigger] final(self).holds(k, at) == (old(
                    self,
                ).holds(k, at) || at == slot(glyph, k)),
    {
        let mut k: usize = 0;
        while k < 3
            invariant
                k <= 3,
                forall|k2: int, at: int|
                    0 <= k2 < 3 && 0 <= at < 256 ==> #[trigger] self.holds(k2, at) == (old(
                        self,
                    ).holds(k2, at) || (k2 < k && at == slot(glyph, k2))),
            decreases 3 - k,
        {
            let at: usize = Self::slot_of(glyph, k);
            self.set_bit(k, at);
            k = k + 1;
        }
    }

    /// Fills bits `from ..= to` of mask `k`.
    fn set_span(&mut self, k: usize, from: usize, to: usize)
        requires
            k < 3,
            from <= to < 256,
        ensures
            forall|k2: int, at: int|
                0 <= k2 < 3 && 0 <= at < 256 ==> #[trigger] final(self).holds(k2, at) == (old(
                    self,
                ).holds(k2, at) || (k2 == k && from <= at <= to)),
    {
        let first: usize = from / 64;
        let last: usize = to / 64;
        let mut w: usize = first;
        while w <= last
            invariant
                k < 3,
                from <= to < 256,
                first == from / 64,
                last == to / 64,
                first <= w <= last + 1,
                forall|k2: int, at: int|
                    0 <= k2 < 3 && 0 <= at < 256 ==> #[trigger] self.holds(k2, at) == (old(
                        self,
                    ).holds(k2, at) || (k2 == k && from <= at <= to && at / 64 < w)),
            decreases last + 1 - w,
        {
            let lo: usize = if w == first {
                from % 64
            } else {
                0
            };
            let hi: usize = if w == last {
                to % 64
            } else {
                63
            };
            let bits: u64 = word_span(lo, hi);
            let i: usize = k * 4 + w;
            let old_word: u64 = self.masks[i];
            let ghost before = *self;
            self.masks[i] = old_word | bits;
            assert forall|k2: int, at: int| 0 <= k2 < 3 && 0 <= at < 256 implies #[trigger] self.holds(
                k2,
                at,
            ) == (old(self).holds(k2, at) || (k2 == k && from <= at <= to && at / 64 < w + 1)) by {
                assert(before.holds(k2, at) == (old(self).holds(k2, at) || (k2 == k && from <= at
                    <= to && at / 64 < w)));
                if k2 * 4 + at / 64 == i {
                    assert(k2 == k && at / 64 == w as int);
                    assert((lo <= at % 64 <= hi) == (from <= at <= to));
                    lemma_or_bits(old_word, bits, (at % 64) as u64);
                    assert(self.masks[i as int] == old_word | bits);
                    assert(self.holds(k2, at) == bit_of(old_word | bits, at % 64));
                    assert(bit_of(old_word | bits, at % 64) == (bit_of(old_word, at % 64) || bit_of(bits, at % 64)));
                    assert(bit_of(bits, at % 64) == (lo <= at % 64 <= hi));
                    assert(before.holds(k2, at) == bit_of(old_word, at % 64));
                } else {
                    assert(self.masks[k2 * 4 + at / 64] == before.masks[k2 * 4 + at / 64]);
                }
            }
            w = w + 1;
        }
    }

    /// Records every glyph of `first ..= last`.
    pub fn add_range(&mut self, first: u16, last: u16)
        ensures
            first > last ==> *final(self) == *old(self),
            first <= last ==> forall|k: int, at: int|
                0 <= k < 3 && 0 <= at < 256 ==> #[trigger] final(self).holds(k, at) == (old(
                    self,
                ).holds(k, at) || in_span(
                    ((first as usize) >> (shift_of(k) as usize)) as int,
                    ((last as usize) >> (shift_of(k) as usize)) as int,
                    at,
                )),
    {
        if first > last {
            return ;
        }
        let mut k: usize = 0;
        while k < 3
            invariant
                first <= last,
                k <= 3,
                forall|k2: int, at: int|
                    0 <= k2 < 3 && 0 <= at < 256 ==> #[trigger] self.holds(k2, at) == (old(
                        self,
                    ).holds(k2, at) || (k2 < k && in_span(
                        ((first as usize) >> (shift_of(k2) as usize)) as int,
                        ((last as usize) >> (shift_of(k2) as usize)) as int,
                        at,
                    ))),
            decreases 3 - k,
        {
            let shift: usize = if k == 0 {
                4
            } else if k == 1 {
                0
            } else {
                9
            };
            let lo: usize = (first as usize) >> shift;
            let hi: usize = (last as usize) >> shift;
            assert(lo <= hi) by (bit_vector)
                requires
                    first <= last,
                    lo == (first as usize) >> shift,
                    hi == (last as usize) >> shift,
            ;
            assert(lo & 255usize == lo % 256 && hi & 255usize == hi % 256) by (bit_vector);
            if hi - lo >= MASK_BITS - 1 {
                self.set_span(k, 0, 255);
            } else {
                let a: usize = lo & (MASK_BITS - 1);
                let b: usize = hi & (MASK_BITS - 1);
                if a <= b {
                    self.set_span(k, a, b);
                } else {
                    self.set_span(k, a, MASK_BITS - 1);
                    self.set_span(k, 0, b);
                }
            }
            k = k + 1;
        }
    }

    /// Adds every glyph of `other`.
    pub fn union(&mut self, other: &Digest)
        ensures
            forall|k: int, at: int|
                0 <= k < 3 && 0 <= at < 256 ==> #[trigger] final(self).holds(k, at) == (old(
                    self,
                ).holds(k, at) || other.holds(k, at)),
            other.is_empty_spec() ==> *final(self) == *old(self),
    {
        let mut i: usize = 0;
        while i < 12
            invariant
                i <= 12,
                forall|j: int| 0 <= j < i ==> self.masks[j] == old(self).masks[j] | other.masks[j],
                forall|j: int| i <= j < 12 ==> self.masks[j] == old(self).masks[j],
            decreases 12 - i,
        {
            self.masks[i] = self.masks[i] | other.masks[i];
            i = i + 1;
        }
        assert forall|k: int, at: int| 0 <= k < 3 && 0 <= at < 256 implies #[trigger] self.holds(
            k,
            at,
        ) == (old(self).holds(k, at) || other.holds(k, at)) by {
            lemma_or_bits(
                old(self).masks[k * 4 + at / 64],
                other.masks[k * 4 + at / 64],
                (at % 64) as u64,
            );
        }
        proof {
            if other.is_empty_spec() {
                assert forall|k: int, at: int| 0 <= k < 3 && 0 <= at < 256 implies #[trigger] self.holds(k, at)
                    == old(self).holds(k, at) by {
                    assert(!other.holds(k, at));
                }
                Digest::lemma_bits_determine(*self, *old(self));
            }
        }
    }

    /// Whether for every mask some bit is set in both digests.
    pub fn may_intersect(&self, other: &Digest) -> (r: bool)
        ensures
            r == forall|k: int| 0 <= k < 3 ==> #[trigger] self.shares(*other, k),
    {
        let mut k: usize = 0;
        while k < 3
            invariant
                k <= 3,
                forall|k2: int| 0 <= k2 < k ==> #[trigger] self.shares(*other, k2),
            decreases 3 - k,
        {
            let mut w: usize = 0;
            let mut found: bool = false;
            while w < 4
                invariant
                    k < 3,
                    w <= 4,
                    found ==> exists|at: int|
                        0 <= at < 256 && #[trigger] self.holds(k as int, at) && other.holds(
                            k as int,
                            at,
                        ),
                    !found ==> forall|at: int|
                        0 <= at < w * 64 ==> !(#[trigger] self.holds(k as int, at) && other.holds(
                            k as int,
                            at,
                        )),
                decreases 4 - w,
            {
                let x: u64 = self.masks[k * 4 + w];
                let y: u64 = other.masks[k * 4 + w];
                if x & y != 0 {
                    proof {
                        let j = lemma_nonzero_has_bit(x & y);
                        lemma_and_bit(x, y, j);
                        let at: int = (w * 64 + j) as int;
                        assert(self.holds(k as int, at) && other.holds(k as int, at));
                    }
                    found = true;
                } else if !found {
                    proof {
                        assert forall|at: int| 0 <= at < (w + 1) * 64 implies !(
                        #[trigger] self.holds(k as int, at) && other.holds(k as int, at)) by {
                            if at >= w * 64 {
                                lemma_and_bit(x, y, (at % 64) as u64);
                            }
                        }
                    }
                }
                w = w + 1;
            }
            if !found {
                assert(!self.shares(*other, k as int));
                return false;
            }
            k = k + 1;
        }
        true
    }

    /// Whether the digest may contain `glyph`.
    pub fn may_have(&self, glyph: u16) -> (r: bool)
        ensures
            r == self.covers(glyph),
    {
        let mut k: usize = 0;
        while k < 3
            invariant
                k <= 3,
                forall|k2: int| 0 <= k2 < k ==> #[trigger] self.holds(k2, slot(glyph, k2)),
            decreases 3 - k,
        {
            let (word, bit) = Self::bit(glyph, k);
            let x: u64 = self.masks[k * 4 + word];
            proof {
                let b: u64 = (slot(glyph, k as int) % 64) as u64;
                assert((x & (1u64 << b) != 0) == ((x >> b) & 1u64 == 1u64)) by (bit_vector)
                    requires
                        b < 64,
                ;
                assert(self.holds(k as int, slot(glyph, k as int)) == (x & bit != 0));
            }
            if x & bit == 0 {
                return false;
            }
            k = k + 1;
        }
        true
    }

    /// Whether every bit is set.
    pub fn is_full(&self) -> (r: bool)
        ensures
            r == self.is_full_spec(),
    {
        let mut i: usize = 0;
        while i < 12
            invariant
                i <= 12,
                forall|j: int| 0 <= j < i ==> self.masks[j] == u64::MAX,
            decreases 12 - i,
        {
            if self.masks[i] != u64::MAX {
                proof {
                    let x: u64 = self.masks[i as int];
                    assert(x != 0xFFFF_FFFF_FFFF_FFFFu64 ==> !x != 0) by (bit_vector);
                    let j = lemma_nonzero_has_bit(!x);
                    assert(j < 64 && (!x >> j) & 1u64 == 1u64 ==> (x >> j) & 1u64 != 1u64)
                        by (bit_vector);
                    let k: int = (i / 4) as int;
                    let at: int = ((i % 4) * 64 + j) as int;
                    assert(k * 4 + at / 64 == i);
                    assert(!self.holds(k, at));
                }
                return false;
            }
            i = i + 1;
        }
        assert forall|k: int, at: int| 0 <= k < 3 && 0 <= at < 256 implies #[trigger] self.holds(
            k,
            at,
        ) by {
            lemma_max_bit((at % 64) as u64);
        }
        true
    }
}

impl Default for Digest {
    fn default() -> (d: Digest)
        ensures
            d.is_empty_spec(),
    {
        Digest::new()
    }
}

/// Whatever was added may be present: a digest never reports a false
/// negative for a glyph it recorded.
pub proof fn lemma_added_glyph_is_covered(before: Digest, after: Digest, glyph: u16)
    requires
        forall|k: int, at: int|
            0 <= k < 3 && 0 <= at < 256 ==> #[trigger] after.holds(k, at) == (before.holds(k, at)
                || at == slot(glyph, k)),
    ensures
        after.covers(glyph),
{
    assert forall|k: int| 0 <= k < 3 implies #[trigger] after.holds(k, slot(glyph, k)) by {
        lemma_slot_bound(glyph, k);
    }
}

/// The slot of a glyph lies within a mask.
pub proof fn lemma_slot_bound(glyph: u16, k: int)
    ensures
        0 <= slot(glyph, k) < 256,
{
    let g: usize = glyph as usize;
    let s: usize = shift_of(k) as usize;
    assert((g >> s) & 255usize < 256) by (bit_vector);
}

/// A glyph anywhere in `first ..= last` falls in the span that `add_range`
/// fills for every mask.
pub proof fn lemma_range_span_holds_glyph(first: u16, last: u16, glyph: u16, k: int)
    requires
        first <= glyph <= last,
        0 <= k < 3,
    ensures
        in_span(
            ((first as usize) >> (shift_of(k) as usize)) as int,
            ((last as usize) >> (shift_of(k) as usize)) as int,
            slot(glyph, k),
        ),
{
    let s: usize = shift_of(k) as usize;
    let f: usize = first as usize;
    let l: usize = last as usize;
    let g: usize = glyph as usize;
    assert(f <= g && g <= l ==> (f >> s) <= (g >> s) && (g >> s) <= (l >> s)) by (bit_vector);
    assert((g >> s) & 255usize == (g >> s) % 256) by (bit_vector);
}

/// Adding a range leaves every glyph of the range covered, and keeps every
/// glyph that was covered before.
pub proof fn lemma_added_range_is_covered(before: Digest, after: Digest, first: u16, last: u16)
    requires
        first <= last,
        forall|k: int, at: int|
            0 <= k < 3 && 0 <= at < 256 ==> #[trigger] after.holds(k, at) == (before.holds(k, at)
                || in_span(
                ((first as usize) >> (shift_of(k) as usize)) as int,
                ((last as usize) >> (shift_of(k) as usize)) as int,
                at,
            )),
    ensures
        forall|g: u16| first <= g <= last ==> #[trigger] after.covers(g),
        forall|g: u16| before.covers(g) ==> #[trigger] after.covers(g),
{
    assert forall|g: u16| first <= g <= last implies #[trigger] after.covers(g) by {
        assert forall|k: int| 0 <= k < 3 implies #[trigger] after.holds(k, slot(g, k)) by {
            lemma_slot_bound(g, k);
            lemma_range_span_holds_glyph(first, last, g, k);
        }
    }
    assert forall|g: u16| before.covers(g) implies #[trigger] after.covers(g) by {
        assert forall|k: int| 0 <= k < 3 implies #[trigger] after.holds(k, slot(g, k)) by {
            lemma_slot_bound(g, k);
            assert(before.holds(k, slot(g, k)));
        }
    }
}

/// The union covers every glyph either side covers.
pub proof fn lemma_union_covers_both(a: Digest, b: Digest, u: Digest, glyph: u16)
    requires
        forall|k: int, at: int|
            0 <= k < 3 && 0 <= at < 256 ==> #[trigger] u.holds(k, at) == (a.holds(k, at) || b.holds(
                k,
                at,
            )),
        a.covers(glyph) || b.covers(glyph),
    ensures
        u.covers(glyph),
{
    assert forall|k: int| 0 <= k < 3 implies #[trigger] u.holds(k, slot(glyph, k)) by {
        lemma_slot_bound(glyph, k);
        if a.covers(glyph) {
            assert(a.holds(k, slot(glyph, k)));
        } else {
            assert(b.holds(k, slot(glyph, k)));
        }
    }
}

/// Two digests that both cover one glyph may intersect.
pub proof fn lemma_shared_glyph_intersects(a: Digest, b: Digest, glyph: u16)
    requires
        a.covers(glyph),
        b.covers(glyph),
    ensures
        forall|k: int| 0 <= k < 3 ==> #[trigger] a.shares(b, k),
{
    assert forall|k: int| 0 <= k < 3 implies #[trigger] a.shares(b, k) by {
        lemma_slot_bound(glyph, k);
        assert(a.holds(k, slot(glyph, k)) && b.holds(k, slot(glyph, k)));
    }
}

} // verus!
