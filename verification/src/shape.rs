//! What shaping hands back: the shaped glyphs of a buffer, and the
//! script and direction guessed for a buffer that names none.

use vstd::prelude::*;
use crate::buffer::{Buffer, Direction, GLYPH_FLAGS_DEFINED};
use crate::unicode::{Script, ScriptCatalog};

verus! {

/// One shaped glyph: its id, its cluster, its advance and offset, and its
/// glyph flags.
#[derive(Clone, Copy, PartialEq, Eq, Structural, Debug)]
pub struct ShapedGlyph {
    pub glyph_id: u16,
    pub cluster: u32,
    pub x_advance: i32,
    pub y_advance: i32,
    pub x_offset: i32,
    pub y_offset: i32,
    pub flags: u32,
}

/// The shaped glyph at position `i` of a buffer.
pub open spec fn spec_shaped(b: &Buffer, i: int) -> ShapedGlyph {
    ShapedGlyph {
        glyph_id: b.info@[i].id as u16,
        cluster: b.info@[i].cluster,
        x_advance: b.pos@[i].x_advance,
        y_advance: b.pos@[i].y_advance,
        x_offset: b.pos@[i].x_offset,
        y_offset: b.pos@[i].y_offset,
        flags: b.info@[i].mask & GLYPH_FLAGS_DEFINED,
    }
}

/// The glyphs of a shaped buffer, in order.
pub fn shaped_glyphs(buffer: &Buffer) -> (out: Vec<ShapedGlyph>)
    requires
        buffer.wf(),
    ensures
        out@.len() == buffer.len,
        forall|i: int| 0 <= i < buffer.len ==> #[trigger] out@[i] == spec_shaped(buffer, i),
{
    let mut out: Vec<ShapedGlyph> = Vec::new();
    let mut i: usize = 0;
    while i < buffer.len
        invariant
            i <= buffer.len,
            buffer.wf(),
            out@.len() == i,
            forall|k: int| 0 <= k < i ==> #[trigger] out@[k] == spec_shaped(buffer, k),
        decreases buffer.len - i,
    {
        let info = &buffer.info[i];
        let pos = &buffer.pos[i];
        out.push(
            ShapedGlyph {
                glyph_id: info.id as u16,
                cluster: info.cluster,
                x_advance: pos.x_advance,
                y_advance: pos.y_advance,
                x_offset: pos.x_offset,
                y_offset: pos.y_offset,
                flags: info.mask & GLYPH_FLAGS_DEFINED,
            },
        );
        i = i + 1;
    }
    out
}

/// The script of the first glyph, from `i` on and below `n`, whose
/// character has a script of its own.
pub open spec fn spec_first_script(scripts: Seq<Option<Script>>, catalog: ScriptCatalog, i: int, n: int) -> Option<Script>
    decreases n - i,
{
    if i < 0 || i >= n {
        None
    } else {
        match scripts[i] {
            Some(s) => if !s.spec_is_context_dependent(catalog) {
                Some(s)
            } else {
                spec_first_script(scripts, catalog, i + 1, n)
            },
            None => spec_first_script(scripts, catalog, i + 1, n),
        }
    }
}

/// The horizontal direction of a script, from the direction table: left
/// to right where the table has no entry or leaves it open.
pub open spec fn spec_direction_of(script: Option<Script>, directions: Seq<Option<Direction>>) -> Direction {
    match script {
        Some(s) => if (s.0 as int) < directions.len() {
            match directions[s.0 as int] {
                Some(d) => d,
                None => Direction::LeftToRight,
            }
        } else {
            Direction::LeftToRight
        },
        None => Direction::LeftToRight,
    }
}

fn first_script(glyph_scripts: &[Option<Script>], catalog: &ScriptCatalog, n: usize) -> (r: Option<Script>)
    requires
        n <= glyph_scripts@.len(),
    ensures
        r == spec_first_script(glyph_scripts@, *catalog, 0, n as int),
{
    let mut i: usize = 0;
    while i < n
        invariant
            i <= n <= glyph_scripts@.len(),
            spec_first_script(glyph_scripts@, *catalog, 0, n as int) == spec_first_script(
                glyph_scripts@,
                *catalog,
                i as int,
                n as int,
            ),
        decreases n - i,
    {
        if let Some(s) = glyph_scripts[i] {
            if !s.is_context_dependent(catalog) {
                return Some(s);
            }
        }
        i = i + 1;
    }
    None
}

/// Settles the script of a buffer that names none on that of its first
/// glyph with a script of its own, and returns the script's horizontal
/// direction. `glyph_scripts` holds the script of each glyph's character
/// (none where a glyph is no character), `directions` the horizontal
/// direction of each script of the catalog.
#[verifier::rlimit(50)]
pub fn guess_segment_properties(
    buffer: &mut Buffer,
    glyph_scripts: &[Option<Script>],
    catalog: &ScriptCatalog,
    directions: &[Option<Direction>],
) -> (d: Direction)
    requires
        glyph_scripts@.len() >= old(buffer).len,
    ensures
        final(buffer).script == match old(buffer).script {
            Some(s) => Some(s),
            None => spec_first_script(glyph_scripts@, *catalog, 0, old(buffer).len as int),
        },
        *final(buffer) == (Buffer { script: final(buffer).script, ..*old(buffer) }),
        d == spec_direction_of(final(buffer).script, directions@),
{
    let script: Option<Script> = match buffer.script {
        Some(s) => Some(s),
        None => first_script(glyph_scripts, catalog, buffer.len),
    };
    buffer.script = script;
    assert(*buffer == (Buffer { script, ..*old(buffer) }));
    match script {
        Some(s) => if (s.0 as usize) < directions.len() {
            match directions[s.0 as usize] {
                Some(d) => d,
                None => Direction::LeftToRight,
            }
        } else {
            Direction::LeftToRight
        },
        None => Direction::LeftToRight,
    }
}

} // verus!
