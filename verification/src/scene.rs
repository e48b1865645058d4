//! A fixed scene: a checkerboard with a caption.

use vstd::prelude::*;

verus! {

/// How many tiles a side of the board has.
pub const SIDE: usize = 5;

/// The size of a tile in pixels.
pub const TILE: usize = 100;

/// Where the board begins.
pub const ORIGIN_X: usize = 150;

pub const ORIGIN_Y: usize = 100;

/// How far under the board the caption stands.
pub const CAPTION_GAP: usize = 40;

/// One tile: its place on the board and on the screen, and which of the two
/// colors it has.
#[derive(Debug, Clone, Copy, PartialEq, Eq, Structural)]
pub struct Tile {
    pub row: usize,
    pub col: usize,
    pub x: usize,
    pub y: usize,
    pub light: bool,
}

/// The tile at a place on the board.
pub open spec fn tile_at(row: int, col: int) -> Tile {
    Tile {
        row: row as usize,
        col: col as usize,
        x: (ORIGIN_X + col * TILE) as usize,
        y: (ORIGIN_Y + row * TILE) as usize,
        light: (row + col) % 2 == 0,
    }
}

/// The tiles of the board, row by row.
pub fn checkerboard() -> (tiles: Vec<Tile>)
    ensures
        tiles@ == Seq::new(25, |i: int| tile_at(i / 5, i % 5)),
{
    let ghost expected = Seq::new(25, |i: int| tile_at(i / 5, i % 5));
    let mut tiles: Vec<Tile> = Vec::new();
    let mut row: usize = 0;
    while row < SIDE
        invariant
            row <= SIDE,
            expected == Seq::new(25, |i: int| tile_at(i / 5, i % 5)),
            tiles@ == expected.take(5 * row),
        decreases SIDE - row,
    {
        let mut col: usize = 0;
        while col < SIDE
            invariant
                row < SIDE,
                col <= SIDE,
                expected == Seq::new(25, |i: int| tile_at(i / 5, i % 5)),
                tiles@ == expected.take(5 * row + col),
            decreases SIDE - col,
        {
            tiles.push(
                Tile {
                    row,
                    col,
                    x: ORIGIN_X + col * TILE,
                    y: ORIGIN_Y + row * TILE,
                    light: (row + col) % 2 == 0,
                },
            );
            proof {
                let i = 5 * row + col;
                assert(i / 5 == row && i % 5 == col);
                assert(tiles@ =~= expected.take(i + 1));
            }
            col = col + 1;
        }
        row = row + 1;
    }
    assert(expected.take(25) =~= expected);
    tiles
}

/// Where the caption stands: under the board.
pub fn caption_place() -> (place: (usize, usize))
    ensures
        place == (150usize, 640usize),
{
    (ORIGIN_X, ORIGIN_Y + SIDE * TILE + CAPTION_GAP)
}

/// Neighbouring tiles differ in color.
pub proof fn neighbours_differ(row: int, col: int)
    ensures
        tile_at(row, col).light != tile_at(row, col + 1).light,
        tile_at(row, col).light != tile_at(row + 1, col).light,
{
}

/// The tiles lie edge to edge: each begins a tile's width behind its left
/// neighbour and a tile's height below its upper one. The board begins at
/// (150, 100) with a light tile.
pub proof fn tiles_lie_edge_to_edge(row: int, col: int)
    requires
        0 <= row < 5,
        0 <= col < 5,
    ensures
        ({
            let tile = tile_at(row, col);
            &&& tile.row == row && tile.col == col
            &&& row == 0 ==> tile.y == 100
            &&& col == 0 ==> tile.x == 150
            &&& col > 0 ==> tile.x == tile_at(row, col - 1).x + 100 && tile.y == tile_at(
                row,
                col - 1,
            ).y
            &&& row > 0 ==> tile.y == tile_at(row - 1, col).y + 100 && tile.x == tile_at(
                row - 1,
                col,
            ).x
            &&& row == 0 && col == 0 ==> tile.light
        }),
{
}

} // verus!
