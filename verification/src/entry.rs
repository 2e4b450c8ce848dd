//! Tiles that are drawn with one character each.

use vstd::prelude::*;
use vstd::string::StringSliceAdditionalSpecFns;
use crate::boundary::{literal_outcome, Boundary, BoundaryError};

verus! {

/// A tile: the character it is drawn with, whether cells may take it at all,
/// and its border code.  A tile that is not enabled still has its place in
/// the tile list, so that the other tiles keep their numbers.
#[derive(Debug, Clone, Copy)]
pub struct CharacterEntry {
    pub character: char,
    pub enabled: bool,
    pub boundary: Boundary,
}

impl CharacterEntry {
    /// Makes a tile from its character and its border literal.
    pub fn build(character: char, enabled: bool, borders: &str) -> (r: Result<
        CharacterEntry,
        BoundaryError,
    >)
        ensures
            match r {
                Ok(entry) => entry.character == character && entry.enabled == enabled
                    && literal_outcome(borders.spec_bytes(), Ok(entry.boundary)),
                Err(e) => literal_outcome(borders.spec_bytes(), Err(e)),
            },
    {
        match Boundary::from_str(borders) {
            Ok(boundary) => Ok(CharacterEntry { character, enabled, boundary }),
            Err(e) => Err(e),
        }
    }

    pub fn enabled(&self) -> (b: bool)
        ensures
            b == self.enabled,
    {
        self.enabled
    }

    pub fn boundary(&self) -> (b: &Boundary)
        ensures
            *b == self.boundary,
    {
        &self.boundary
    }
}

/// The border codes of a list of tiles.
pub open spec fn tiles_of(potentials: Seq<CharacterEntry>) -> Seq<Boundary> {
    Seq::new(potentials.len(), |i: int| potentials[i].boundary)
}

/// For each tile of a list, whether cells may take it.
pub open spec fn enabled_of(potentials: Seq<CharacterEntry>) -> Seq<bool> {
    Seq::new(potentials.len(), |i: int| potentials[i].enabled)
}

/// The character that stands for entry `i` of a partial rendering: the tile's
/// own character, `'?'` for a cell that is still open, `'!'` for a cell that
/// has no tile left.
pub open spec fn glyph(potentials: Seq<CharacterEntry>, i: usize) -> char {
    if i < potentials.len() {
        potentials[i as int].character
    } else if i == potentials.len() {
        '?'
    } else {
        '!'
    }
}

/// One row of tile numbers as text, ending in a line feed.
pub open spec fn row_text(potentials: Seq<CharacterEntry>, row: Seq<usize>) -> Seq<char> {
    Seq::new(row.len(), |k: int| glyph(potentials, row[k])).push('\n')
}

/// The rows of tile numbers as text, one line per row.
pub open spec fn grid_text(potentials: Seq<CharacterEntry>, rows: Seq<Vec<usize>>) -> Seq<char>
    decreases rows.len(),
{
    if rows.len() == 0 {
        Seq::empty()
    } else {
        grid_text(potentials, rows.drop_last()) + row_text(potentials, rows.last()@)
    }
}

/// `String::push` appends the character to the end of the string.
pub assume_specification[ String::push ](s: &mut String, c: char)
    ensures
        final(s)@ == old(s)@.push(c),
;

/// Draws a matrix of tile numbers, as `render` and `render_partial` give it.
pub fn make_string(potentials: &[CharacterEntry], indices: &[Vec<usize>]) -> (result: String)
    ensures
        result@ == grid_text(potentials@, indices@),
{
    let mut result = String::new();
    let mut y: usize = 0;
    while y < indices.len()
        invariant
            y <= indices@.len(),
            result@ == grid_text(potentials@, indices@.take(y as int)),
        decreases indices@.len() - y,
    {
        let row = &indices[y];
        let ghost line_start = result@;
        let mut x: usize = 0;
        while x < row.len()
            invariant
                x <= row@.len(),
                result@ == line_start + Seq::new(x as nat, |k: int| glyph(potentials@, row@[k])),
            decreases row@.len() - x,
        {
            let i = row[x];
            let c = if i < potentials.len() {
                potentials[i].character
            } else if i == potentials.len() {
                '?'
            } else {
                '!'
            };
            result.push(c);
            assert(result@ =~= line_start + Seq::new((x + 1) as nat, |k: int| glyph(potentials@,
                row@[k])));
            x += 1;
        }
        result.push('\n');
        proof {
            assert(indices@.take(y + 1).drop_last() =~= indices@.take(y as int));
            assert(indices@.take(y + 1).last() == indices@[y as int]);
            assert(result@ =~= line_start + row_text(potentials@, row@));
        }
        y += 1;
    }
    assert(indices@.take(indices@.len() as int) =~= indices@);
    result
}

} // verus!
