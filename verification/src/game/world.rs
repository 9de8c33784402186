//! The tile grid of a level: how it is read from text and how it is drawn.

use crate::game::format::{
    chars_of, grid_of, grid_text, has_marker, holds_marker, i64_of, is_digit, next_token, read_i64,
    read_u32, tokens, tokens_from, u32_of,
};
use crate::resources::{ResourceLoader, ResourceManager};
use crate::utils::{cell_blit, cell_in_reach, Blit, SpriteSheet};
use std::rc::Rc;
use vstd::prelude::*;

verus! {

/// What occupies one cell of the grid.
#[derive(Debug, Clone, Copy, PartialEq, Eq, Structural)]
pub enum Tile {
    Air,
    Ground,
    Block,
}

/// The tile that a character of a level's grid stands for.
pub open spec fn tile_of(c: char) -> Tile {
    if c == '#' {
        Tile::Ground
    } else if c == '-' {
        Tile::Block
    } else {
        Tile::Air
    }
}

/// Maps a grid character to its tile: `#` is ground, `-` a block, and `.`
/// like every other character is air.
pub fn get_tile_id(c: char) -> (tile: Tile)
    ensures
        tile == tile_of(c),
{
    match c {
        '#' => Tile::Ground,
        '.' => Tile::Air,
        '-' => Tile::Block,
        _ => Tile::Air,
    }
}

/// Column and row of the atlas cell that shows a tile.
pub open spec fn atlas_cell_of(tile: Tile) -> (i32, i32) {
    match tile {
        Tile::Air => (30, 0),
        Tile::Ground => (0, 0),
        Tile::Block => (0, 1),
    }
}

/// Column and row of the atlas cell that shows a tile.
pub fn atlas_cell(tile: Tile) -> (cell: (i32, i32))
    ensures
        cell == atlas_cell_of(tile),
{
    match tile {
        Tile::Air => (30, 0),
        Tile::Ground => (0, 0),
        Tile::Block => (0, 1),
    }
}

/// The four numbers that open a level's text, in their order.
#[derive(Debug, Clone, Copy, PartialEq, Eq, Structural)]
pub enum HeaderField {
    Width,
    Height,
    SpawnX,
    SpawnY,
}

/// Why a level's text was not accepted.
#[derive(Debug, Clone, Copy, PartialEq, Eq, Structural)]
pub enum ParseError {
    /// The text ends before this number.
    Missing(HeaderField),
    /// The token in this number's place does not write a number of its kind.
    Invalid(HeaderField),
}

/// The numbers that open a level's text: the size of the grid in tiles and
/// the tile where the player starts.
#[derive(Debug, Clone, Copy, PartialEq, Eq, Structural)]
pub struct Header {
    pub width: u32,
    pub height: u32,
    pub spawn_x: i64,
    pub spawn_y: i64,
}

/// The unsigned number that the token at place `k` of a text writes.
pub open spec fn unsigned_field(s: Seq<char>, k: int, field: HeaderField) -> Result<
    u32,
    ParseError,
> {
    if tokens(s).len() <= k {
        Err(ParseError::Missing(field))
    } else {
        match u32_of(tokens(s)[k]) {
            Some(n) => Ok(n),
            None => Err(ParseError::Invalid(field)),
        }
    }
}

/// The signed number that the token at place `k` of a text writes.
pub open spec fn signed_field(s: Seq<char>, k: int, field: HeaderField) -> Result<
    i64,
    ParseError,
> {
    if tokens(s).len() <= k {
        Err(ParseError::Missing(field))
    } else {
        match i64_of(tokens(s)[k]) {
            Some(n) => Ok(n),
            None => Err(ParseError::Invalid(field)),
        }
    }
}

/// The header that a level's text opens with, or the first thing that is
/// wrong with it: the first four tokens are width, height and the two
/// coordinates of the spawn point.
pub open spec fn header_of(s: Seq<char>) -> Result<Header, ParseError> {
    match unsigned_field(s, 0, HeaderField::Width) {
        Err(e) => Err(e),
        Ok(width) => match unsigned_field(s, 1, HeaderField::Height) {
            Err(e) => Err(e),
            Ok(height) => match signed_field(s, 2, HeaderField::SpawnX) {
                Err(e) => Err(e),
                Ok(spawn_x) => match signed_field(s, 3, HeaderField::SpawnY) {
                    Err(e) => Err(e),
                    Ok(spawn_y) => Ok(Header { width, height, spawn_x, spawn_y }),
                },
            },
        },
    }
}

/// A header is accepted exactly if the text has four tokens or more and
/// each of the first four writes a number of its kind; any other text is
/// rejected.
pub proof fn lemma_header_accepted(s: Seq<char>)
    ensures
        header_of(s) is Ok <==> {
            &&& tokens(s).len() >= 4
            &&& u32_of(tokens(s)[0]) is Some
            &&& u32_of(tokens(s)[1]) is Some
            &&& i64_of(tokens(s)[2]) is Some
            &&& i64_of(tokens(s)[3]) is Some
        },
{
}

/// A token that holds anything but decimal digits behind its first
/// character, or whose first character is neither a digit nor a sign,
/// writes no number.
pub proof fn lemma_not_a_number(token: Seq<char>, i: int)
    requires
        0 <= i < token.len(),
        !is_digit(token[i]),
        i > 0 || (token[0] != '+' && token[0] != '-'),
    ensures
        u32_of(token) is None,
        i64_of(token) is None,
{
    if i > 0 {
        assert(token.skip(1)[i - 1] == token[i]);
    }
}

/// The range of indices that the token at place `k` fills, given that the
/// tokens before it end at `from`.
fn token_at(chars: &Vec<char>, from: usize, Ghost(k): Ghost<int>) -> (token: Option<
    (usize, usize),
>)
    requires
        from <= chars.len(),
        0 <= k <= tokens(chars@).len(),
        tokens(chars@).skip(k) == tokens_from(chars@, from as int),
    ensures
        match token {
            Some((start, end)) => {
                &&& start <= end <= chars.len()
                &&& k < tokens(chars@).len()
                &&& tokens(chars@)[k] == chars@.subrange(start as int, end as int)
                &&& tokens(chars@).skip(k + 1) == tokens_from(chars@, end as int)
            },
            None => tokens(chars@).len() == k,
        },
{
    let ghost all = tokens(chars@);
    match next_token(chars, from) {
        None => {
            assert(all.skip(k).len() == 0);
            None
        },
        Some((start, end)) => {
            assert(all.skip(k)[0] == chars@.subrange(start as int, end as int));
            assert(all.skip(k + 1) == all.skip(k).skip(1));
            assert(all.skip(k).skip(1) == tokens_from(chars@, end as int));
            Some((start, end))
        },
    }
}

/// Reads the header of a level from the characters of its text.
pub fn read_header(chars: &Vec<char>) -> (result: Result<Header, ParseError>)
    ensures
        result == header_of(chars@),
{
    assert(tokens(chars@).skip(0) == tokens(chars@));
    let (width, from) = match token_at(chars, 0, Ghost(0)) {
        None => {
            return Err(ParseError::Missing(HeaderField::Width));
        },
        Some((start, end)) => match read_u32(chars, start, end) {
            None => {
                return Err(ParseError::Invalid(HeaderField::Width));
            },
            Some(width) => (width, end),
        },
    };
    let (height, from) = match token_at(chars, from, Ghost(1)) {
        None => {
            return Err(ParseError::Missing(HeaderField::Height));
        },
        Some((start, end)) => match read_u32(chars, start, end) {
            None => {
                return Err(ParseError::Invalid(HeaderField::Height));
            },
            Some(height) => (height, end),
        },
    };
    let (spawn_x, from) = match token_at(chars, from, Ghost(2)) {
        None => {
            return Err(ParseError::Missing(HeaderField::SpawnX));
        },
        Some((start, end)) => match read_i64(chars, start, end) {
            None => {
                return Err(ParseError::Invalid(HeaderField::SpawnX));
            },
            Some(spawn_x) => (spawn_x, end),
        },
    };
    let spawn_y = match token_at(chars, from, Ghost(3)) {
        None => {
            return Err(ParseError::Missing(HeaderField::SpawnY));
        },
        Some((start, end)) => match read_i64(chars, start, end) {
            None => {
                return Err(ParseError::Invalid(HeaderField::SpawnY));
            },
            Some(spawn_y) => spawn_y,
        },
    };
    Ok(Header { width, height, spawn_x, spawn_y })
}

/// Reads the header of a level from its text.
pub fn parse_header(text: &str) -> (result: Result<Header, ParseError>)
    ensures
        result == header_of(text@),
{
    let chars = chars_of(text);
    read_header(&chars)
}

/// Tells whether a level's text holds the marker `MAP` that opens its
/// grid.
pub fn has_map_marker(text: &str) -> (held: bool)
    ensures
        held == has_marker(text@),
{
    let chars = chars_of(text);
    holds_marker(&chars)
}

/// In a grid of `width` by `height`, the cell in column `x` and row `y`
/// has the index `x + y * width`, which lies within the grid and before
/// the index of every cell of a later row.
pub proof fn lemma_cell_index(x: int, y: int, width: int, height: int)
    requires
        0 <= x < width,
        0 <= y < height,
    ensures
        0 <= x + y * width < (y + 1) * width <= width * height,
{
    assert(y * width + width == (y + 1) * width && (y + 1) * width <= width * height && 0 <= y
        * width) by (nonlinear_arith)
        requires
            0 <= y,
            y + 1 <= height,
            0 <= width,
    ;
}

/// The side of an atlas cell, in pixels, for the tiles of a map.
pub const TILE_SIZE: u32 = 32;

/// Why a map could not be made.
#[derive(Debug, PartialEq, Eq)]
pub enum MapError {
    /// The level's text was not accepted.
    Parse(ParseError),
    /// The atlas could not be loaded, for the reason that the loader gave.
    Load(String),
}

/// A level: its grid of tiles and the atlas that its tiles are drawn from.
pub struct TileMap<T> {
    /// The atlas that the tiles are drawn from.
    pub tiles: SpriteSheet<T>,
    /// The number of columns.
    pub width: u32,
    /// The number of rows.
    pub height: u32,
    /// The tile where the player starts, as column and row.
    pub spawn: (i64, i64),
    /// The characters of the grid, row after row.
    pub tokens: Vec<char>,
}

impl<T> TileMap<T> {
    /// The tiles of the grid, row after row.
    pub open spec fn grid(&self) -> Seq<Tile> {
        self.tokens@.map_values(|c: char| tile_of(c))
    }

    /// What `with_cell_size` owes for the text `text`, the atlas `tsrc`
    /// and cells of `cell_width` by `cell_height`, where the cache goes
    /// from `before` to `after`.
    ///
    /// A header that is not accepted is reported and the cache is left
    /// alone. Else the cache is asked for the atlas as by its `load`, and
    /// either its failure is reported or the map is made of the header,
    /// the grid and the atlas.
    pub open spec fn made<'l, L>(
        text: &str,
        tsrc: &str,
        cell_width: u32,
        cell_height: u32,
        before: ResourceManager<'l, T, L>,
        after: ResourceManager<'l, T, L>,
        result: Result<Self, MapError>,
    ) -> bool where L: ResourceLoader<'l, T, Args = str> {
        match header_of(text@) {
            Err(e) => result matches Err(MapError::Parse(found)) && found == e && after == before,
            Ok(header) => match result {
                Ok(map) => {
                    &&& ResourceManager::loads(
                        before,
                        tsrc,
                        after,
                        Ok::<Rc<T>, String>(map.tiles.sheet()),
                    )
                    &&& map.tiles.cell_width() == cell_width
                    &&& map.tiles.cell_height() == cell_height
                    &&& map.width == header.width
                    &&& map.height == header.height
                    &&& map.spawn == (header.spawn_x, header.spawn_y)
                    &&& map.tokens@ == grid_text(text@)
                },
                Err(MapError::Load(reason)) => ResourceManager::loads(
                    before,
                    tsrc,
                    after,
                    Err::<Rc<T>, String>(reason),
                ),
                Err(MapError::Parse(_)) => false,
            },
        }
    }

    /// Makes the map that the text of a level describes, with the atlas
    /// that `tsrc` names, which comes from the cache `tm` and is cut into
    /// cells of `TILE_SIZE` by `TILE_SIZE`.
    pub fn new<'l, L>(text: &str, tsrc: &str, tm: &mut ResourceManager<'l, T, L>) -> (result:
        Result<Self, MapError>) where L: ResourceLoader<'l, T, Args = str>
        requires
            has_marker(text@),
        ensures
            Self::made(text, tsrc, TILE_SIZE, TILE_SIZE, *old(tm), *final(tm), result),
    {
        Self::with_cell_size(text, tsrc, tm, TILE_SIZE, TILE_SIZE)
    }

    /// Makes the map that the text of a level describes, with the atlas
    /// that `tsrc` names, which comes from the cache `tm` and is cut into
    /// cells of `cell_width` by `cell_height`.
    pub fn with_cell_size<'l, L>(
        text: &str,
        tsrc: &str,
        tm: &mut ResourceManager<'l, T, L>,
        cell_width: u32,
        cell_height: u32,
    ) -> (result: Result<Self, MapError>) where L: ResourceLoader<'l, T, Args = str>
        requires
            has_marker(text@),
            cell_width > 0,
            cell_height > 0,
        ensures
            Self::made(text, tsrc, cell_width, cell_height, *old(tm), *final(tm), result),
    {
        let chars = chars_of(text);
        let header = match read_header(&chars) {
            Ok(header) => header,
            Err(e) => {
                return Err(MapError::Parse(e));
            },
        };
        let tokens = grid_of(&chars);
        match SpriteSheet::new(tm, tsrc, cell_width, cell_height) {
            Ok(tiles) => Ok(
                TileMap {
                    tiles,
                    width: header.width,
                    height: header.height,
                    spawn: (header.spawn_x, header.spawn_y),
                    tokens,
                },
            ),
            Err(reason) => Err(MapError::Load(reason)),
        }
    }

    /// The copy that draws the tile in column `x` and row `y`: the atlas
    /// cell of the tile at index `x + y * width`, at `x` cells from the left
    /// and `y` cells from the top.
    pub open spec fn tile_blit(&self, x: int, y: int) -> Blit {
        let cell = atlas_cell_of(self.grid()[x + y * self.width]);
        cell_blit(
            self.tiles.cell_width(),
            self.tiles.cell_height(),
            cell.0 as int,
            cell.1 as int,
            (x * self.tiles.cell_width()) as i32,
            (y * self.tiles.cell_height()) as i32,
        )
    }

    /// Whether the tile in column `x` and row `y` can be drawn: the grid
    /// holds it, and the corners of its atlas cell and of its place on the
    /// target can be written in 32 bits.
    pub open spec fn tile_drawable(&self, x: int, y: int) -> bool {
        let cell = atlas_cell_of(self.grid()[x + y * self.width]);
        &&& x + y * self.width < self.tokens@.len()
        &&& cell_in_reach(
            self.tiles.cell_width(),
            self.tiles.cell_height(),
            cell.0 as int,
            cell.1 as int,
        )
        &&& x * self.tiles.cell_width() <= i32::MAX
        &&& y * self.tiles.cell_height() <= i32::MAX
    }

    /// Whether every tile of the map can be drawn.
    pub open spec fn drawable(&self) -> bool {
        forall|x: int, y: int|
            0 <= x < self.width && 0 <= y < self.height ==> #[trigger] self.tile_drawable(x, y)
    }

    /// Tests the tile in column `x` and row `y`.
    fn can_draw_tile(&self, x: u32, y: u32) -> (can: bool)
        ensures
            can == self.tile_drawable(x as int, y as int),
    {
        let cell_width = self.tiles.width() as u64;
        let cell_height = self.tiles.height() as u64;
        assert(y * self.width <= 0xffff_ffff * 0xffff_ffff) by (nonlinear_arith)
            requires
                0 <= y <= 0xffff_ffff,
                0 <= self.width <= 0xffff_ffff,
        ;
        let index: u64 = x as u64 + y as u64 * self.width as u64;
        if index >= self.tokens.len() as u64 {
            return false;
        }
        let (ix, iy) = atlas_cell(get_tile_id(self.tokens[index as usize]));
        assert(x * cell_width <= 0xffff_ffff * 0xffff_ffff) by (nonlinear_arith)
            requires
                0 <= x <= 0xffff_ffff,
                0 <= cell_width <= 0xffff_ffff,
        ;
        assert(y * cell_height <= 0xffff_ffff * 0xffff_ffff) by (nonlinear_arith)
            requires
                0 <= y <= 0xffff_ffff,
                0 <= cell_height <= 0xffff_ffff,
        ;
        assert(0 <= ix <= 30 && 0 <= iy <= 1);
        assert(0 <= ix * cell_width <= 30 * 0xffff_ffff) by (nonlinear_arith)
            requires
                0 <= ix <= 30,
                0 <= cell_width <= 0xffff_ffff,
        ;
        assert(0 <= iy * cell_height <= 0xffff_ffff) by (nonlinear_arith)
            requires
                0 <= iy <= 1,
                0 <= cell_height <= 0xffff_ffff,
        ;
        ix as u64 * cell_width <= 0x7fff_ffff && iy as u64 * cell_height <= 0x7fff_ffff && x as u64
            * cell_width <= 0x7fff_ffff && y as u64 * cell_height <= 0x7fff_ffff
    }

    /// Tells whether every tile of the map can be drawn.
    pub fn can_draw(&self) -> (can: bool)
        ensures
            can == self.drawable(),
    {
        if self.width == 0 {
            return true;
        }
        let mut y: u32 = 0;
        while y < self.height
            invariant
                y <= self.height,
                forall|i: int, j: int|
                    0 <= i < self.width && 0 <= j < y ==> #[trigger] self.tile_drawable(i, j),
            decreases self.height - y,
        {
            let mut x: u32 = 0;
            while x < self.width
                invariant
                    x <= self.width,
                    y < self.height,
                    forall|i: int, j: int|
                        0 <= i < self.width && 0 <= j < y ==> #[trigger] self.tile_drawable(i, j),
                    forall|i: int| 0 <= i < x ==> #[trigger] self.tile_drawable(i, y as int),
                decreases self.width - x,
            {
                if !self.can_draw_tile(x, y) {
                    return false;
                }
                x += 1;
            }
            y += 1;
        }
        true
    }

    /// The copies that draw the map, row after row from the top and each
    /// row from the left: one for every tile.
    pub fn draw(&self) -> (blits: Vec<Blit>)
        requires
            self.drawable(),
        ensures
            blits@.len() == self.width * self.height,
            forall|x: int, y: int|
                0 <= x < self.width && 0 <= y < self.height ==> blits@[x + y * self.width]
                    == #[trigger] self.tile_blit(x, y),
    {
        let cell_width = self.tiles.width();
        let cell_height = self.tiles.height();
        let width = self.width;
        let mut blits: Vec<Blit> = Vec::new();
        if width == 0 {
            assert(width * self.height == 0) by (nonlinear_arith)
                requires
                    width == 0,
            ;
            return blits;
        }
        let mut y: u32 = 0;
        while y < self.height
            invariant
                y <= self.height,
                width == self.width,
                cell_width == self.tiles.cell_width(),
                cell_height == self.tiles.cell_height(),
                self.drawable(),
                blits@.len() == y * width,
                forall|i: int, j: int|
                    0 <= i < width && 0 <= j < y ==> blits@[i + j * width]
                        == #[trigger] self.tile_blit(i, j),
            decreases self.height - y,
        {
            let mut x: u32 = 0;
            while x < width
                invariant
                    x <= width,
                    y < self.height,
                    width == self.width,
                    cell_width == self.tiles.cell_width(),
                    cell_height == self.tiles.cell_height(),
                    self.drawable(),
                    blits@.len() == y * width + x,
                    forall|i: int, j: int|
                        0 <= i < width && 0 <= j < y ==> blits@[i + j * width]
                            == #[trigger] self.tile_blit(i, j),
                    forall|i: int|
                        0 <= i < x ==> blits@[i + y * width] == #[trigger] self.tile_blit(
                            i,
                            y as int,
                        ),
                decreases width - x,
            {
                assert(self.tile_drawable(x as int, y as int));
                assert(0 <= y * width) by (nonlinear_arith)
                    requires
                        0 <= y,
                        0 <= width,
                ;
                assert(x + y * width < self.tokens.len() <= usize::MAX);
                let index = x as usize + y as usize * width as usize;
                let (ix, iy) = atlas_cell(get_tile_id(self.tokens[index]));
                let left = (x as u64 * cell_width as u64) as i32;
                let top = (y as u64 * cell_height as u64) as i32;
                let blit = self.tiles.draw_index(ix, iy, left, top);
                let ghost before = blits@;
                blits.push(blit);
                proof {
                    assert forall|i: int, j: int| 0 <= i < width && 0 <= j < y implies blits@[i + j
                        * width] == #[trigger] self.tile_blit(i, j) by {
                        lemma_cell_index(i, j, width as int, y as int);
                        assert(blits@[i + j * width] == before[i + j * width]);
                    }
                    assert((x + 1) + y * width == y * width + x + 1);
                }
                x += 1;
            }
            assert((y + 1) * width == y * width + width) by (nonlinear_arith);
            y += 1;
        }
        assert(y * width == self.width * self.height) by (nonlinear_arith)
            requires
                y == self.height,
                width == self.width,
        ;
        blits
    }

    /// The tiles of the grid, row after row.
    pub fn tile_grid(&self) -> (grid: Vec<Tile>)
        ensures
            grid@ == self.grid(),
    {
        let mut grid: Vec<Tile> = Vec::new();
        let mut at: usize = 0;
        while at < self.tokens.len()
            invariant
                at <= self.tokens.len(),
                grid@ == self.grid().take(at as int),
            decreases self.tokens.len() - at,
        {
            grid.push(get_tile_id(self.tokens[at]));
            assert(self.grid().take(at + 1) == self.grid().take(at as int).push(
                self.grid()[at as int],
            ));
            at += 1;
        }
        assert(self.grid().take(at as int) == self.grid());
        grid
    }
}

} // verus!
