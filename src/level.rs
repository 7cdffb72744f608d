use vstd::prelude::*;

use crate::room::Room;
use vstd::string::StringExecFns;

verus! {

/// One cell of the board.
#[derive(Debug, Clone, Copy, PartialEq, Eq, Structural)]
pub enum Tile {
    Empty,
    Walkable,
}

impl Tile {
    /// The integer a tile is written as in structured output: 0 or 1.
    pub fn code(&self) -> (r: i32)
        ensures
            r == (if *self == Tile::Walkable { 1i32 } else { 0i32 }),
    {
        match self {
            Tile::Empty => 0,
            Tile::Walkable => 1,
        }
    }

    /// The character a tile is shown as in a text dump.
    pub fn symbol(&self) -> (r: char)
        ensures
            r == (if *self == Tile::Walkable { '1' } else { ' ' }),
    {
        match self {
            Tile::Empty => ' ',
            Tile::Walkable => '1',
        }
    }
}

/// How a tile is shown in the text dump: its symbol followed by a space.
pub open spec fn tile_text(t: Tile) -> Seq<char> {
    if t == Tile::Walkable {
        seq!['1', ' ']
    } else {
        seq![' ', ' ']
    }
}

/// The text of one row of tiles.
pub open spec fn row_text(row: Seq<Tile>) -> Seq<char>
    decreases row.len(),
{
    if row.len() == 0 {
        Seq::empty()
    } else {
        row_text(row.drop_last()) + tile_text(row.last())
    }
}

/// The text dump of a board: each row's text followed by a line break.
pub open spec fn board_text(board: Seq<Vec<Tile>>) -> Seq<char>
    decreases board.len(),
{
    if board.len() == 0 {
        Seq::empty()
    } else {
        board_text(board.drop_last()) + row_text(board.last()@) + seq!['\n']
    }
}

/// A `width × height` board of tiles, indexed `board[row][column]`, with the
/// rectangles that were stamped into it, in order.
pub struct Level {
    pub width: i32,
    pub height: i32,
    pub board: Vec<Vec<Tile>>,
    pub tile_size: i32,
    pub rooms: Vec<Room>,
    pub hash: String,
}

impl Level {
    /// The board has `height` rows of `width` cells each.
    pub open spec fn shaped(self) -> bool {
        &&& 0 <= self.width
        &&& 0 <= self.height
        &&& self.board@.len() == self.height
        &&& forall|r: int| 0 <= r < self.height ==> (#[trigger] self.board@[r])@.len() == self.width
    }

    /// The tile in row `r` and column `c`.
    pub open spec fn cell(self, r: int, c: int) -> Tile {
        self.board@[r]@[c]
    }

    /// Whether some stamped rectangle covers the cell in row `r` and column `c`.
    pub open spec fn covered(self, r: int, c: int) -> bool {
        exists|i: int| 0 <= i < self.rooms@.len() && (#[trigger] self.rooms@[i]).contains_cell(c, r)
    }

    /// A cell is walkable exactly when some stamped rectangle covers it.
    pub open spec fn stamped_exactly(self) -> bool {
        forall|r: int, c: int|
            0 <= r < self.height && 0 <= c < self.width ==> ((#[trigger] self.cell(r, c))
                == Tile::Walkable <==> self.covered(r, c))
    }

    /// Whether a rectangle lies inside the board.
    pub open spec fn fits(self, room: Room) -> bool {
        &&& 0 <= room.width
        &&& 0 <= room.height
        &&& room.within(0, 0, self.width as int, self.height as int)
    }

    /// An all-empty board with no rooms, remembering the seed text it was made from.
    pub fn new(width: i32, height: i32, hash: &String) -> (r: Level)
        requires
            0 <= width,
            0 <= height,
        ensures
            r.shaped(),
            r.width == width,
            r.height == height,
            r.tile_size == 16,
            r.rooms@.len() == 0,
            r.hash@ == hash@,
            forall|i: int, j: int|
                0 <= i < height && 0 <= j < width ==> #[trigger] r.cell(i, j) == Tile::Empty,
            r.stamped_exactly(),
    {
        let mut board: Vec<Vec<Tile>> = Vec::new();
        let mut i: i32 = 0;
        while i < height
            invariant
                0 <= i <= height,
                0 <= width,
                board@.len() == i,
                forall|k: int| 0 <= k < i ==> (#[trigger] board@[k])@.len() == width,
                forall|k: int, j: int|
                    0 <= k < i && 0 <= j < width ==> #[trigger] board@[k]@[j] == Tile::Empty,
            decreases height - i,
        {
            let mut row: Vec<Tile> = Vec::new();
            let mut j: i32 = 0;
            while j < width
                invariant
                    0 <= j <= width,
                    0 <= width,
                    row@.len() == j,
                    forall|k: int| 0 <= k < j ==> #[trigger] row@[k] == Tile::Empty,
                decreases width - j,
            {
                row.push(Tile::Empty);
                j = j + 1;
            }
            board.push(row);
            i = i + 1;
        }
        Level { width, height, board, tile_size: 16, rooms: Vec::new(), hash: hash.clone() }
    }

    /// The board as text, one line per row, each tile shown by its symbol
    /// and a space.
    pub fn render(&self) -> (r: String)
        ensures
            r@ == board_text(self.board@),
    {
        let mut out = String::new();
        let mut i: usize = 0;
        while i < self.board.len()
            invariant
                0 <= i <= self.board@.len(),
                out@ == board_text(self.board@.subrange(0, i as int)),
            decreases self.board@.len() - i,
        {
            let row = &self.board[i];
            let ghost before = out@;
            let mut j: usize = 0;
            while j < row.len()
                invariant
                    0 <= j <= row@.len(),
                    out@ == before + row_text(row@.subrange(0, j as int)),
                decreases row@.len() - j,
            {
                if row[j] == Tile::Walkable {
                    proof {
                        reveal_strlit("1 ");
                    }
                    out.append("1 ");
                } else {
                    proof {
                        reveal_strlit("  ");
                    }
                    out.append("  ");
                }
                assert(row@.subrange(0, j + 1).drop_last() =~= row@.subrange(0, j as int));
                j = j + 1;
            }
            proof {
                reveal_strlit("\n");
            }
            out.append("\n");
            assert(row@.subrange(0, row@.len() as int) =~= row@);
            assert(self.board@.subrange(0, i + 1).drop_last() =~= self.board@.subrange(0, i as int));
            i = i + 1;
        }
        assert(self.board@.subrange(0, self.board@.len() as int) =~= self.board@);
        out
    }

    /// Marks every cell of `room` walkable and records `room`.
    pub fn add_room(&mut self, room: &Room)
        requires
            old(self).shaped(),
            old(self).fits(*room),
        ensures
            final(self).shaped(),
            final(self).width == old(self).width,
            final(self).height == old(self).height,
            final(self).tile_size == old(self).tile_size,
            final(self).hash@ == old(self).hash@,
            final(self).rooms@ == old(self).rooms@.push(*room),
            forall|r: int, c: int|
                0 <= r < old(self).height && 0 <= c < old(self).width ==> #[trigger] final(self).cell(r, c) == if room.contains_cell(c, r) {
                    Tile::Walkable
                } else {
                    old(self).cell(r, c)
                },
            old(self).stamped_exactly() ==> final(self).stamped_exactly(),
    {
        let ghost before = *self;
        let mut row: i32 = 0;
        while row < room.height
            invariant
                self.shaped(),
                self.width == before.width,
                self.height == before.height,
                self.tile_size == before.tile_size,
                self.hash == before.hash,
                self.rooms == before.rooms,
                before.fits(*room),
                0 <= row <= room.height,
                forall|r: int, c: int|
                    0 <= r < before.height && 0 <= c < before.width ==> #[trigger] self.cell(r, c)
                        == if room.x <= c < room.x + room.width && room.y <= r < room.y + row {
                        Tile::Walkable
                    } else {
                        before.cell(r, c)
                    },
            decreases room.height - row,
        {
            let mut col: i32 = 0;
            while col < room.width
                invariant
                    self.shaped(),
                    self.width == before.width,
                    self.height == before.height,
                    self.tile_size == before.tile_size,
                    self.hash == before.hash,
                    self.rooms == before.rooms,
                    before.fits(*room),
                    0 <= row < room.height,
                    0 <= col <= room.width,
                    forall|r: int, c: int|
                        0 <= r < before.height && 0 <= c < before.width ==> #[trigger] self.cell(r, c) == if (room.x <= c < room.x + room.width && room.y <= r < room.y + row)
                            || (r == room.y + row && room.x <= c < room.x + col) {
                            Tile::Walkable
                        } else {
                            before.cell(r, c)
                        },
                decreases room.width - col,
            {
                let y = (room.y + row) as usize;
                let x = (room.x + col) as usize;
                let ghost prev = *self;
                self.board[y][x] = Tile::Walkable;
                assert(self.board@ == prev.board@.update(
                    y as int,
                    self.board@[y as int],
                ));
                assert(self.board@[y as int]@ == prev.board@[y as int]@.update(
                    x as int,
                    Tile::Walkable,
                ));
                assert forall|r: int|
                    0 <= r < self.height implies (#[trigger] self.board@[r])@.len()
                        == self.width by {
                    if r != y as int {
                        assert(self.board@[r] == prev.board@[r]);
                    }
                }
                assert forall|r: int, c: int|
                    0 <= r < before.height && 0 <= c < before.width implies #[trigger] self.cell(
                        r,
                        c,
                    ) == if (room.x <= c < room.x + room.width && room.y <= r < room.y + row) || (r
                        == room.y + row && room.x <= c < room.x + col + 1) {
                        Tile::Walkable
                    } else {
                        before.cell(r, c)
                    } by {
                    if r != y as int {
                        assert(self.board@[r] == prev.board@[r]);
                        assert(self.cell(r, c) == prev.cell(r, c));
                    } else if c != x as int {
                        assert(self.cell(r, c) == prev.cell(r, c));
                    }
                }
                col = col + 1;
            }
            row = row + 1;
        }
        let ghost mid = *self;
        self.rooms.push(*room);
        proof {
            assert forall|r: int, c: int|
                0 <= r < before.height && 0 <= c < before.width implies #[trigger] self.cell(r, c)
                    == if room.contains_cell(c, r) {
                    Tile::Walkable
                } else {
                    before.cell(r, c)
                } by {
                assert(self.cell(r, c) == mid.cell(r, c));
            }
            if before.stamped_exactly() {
                assert forall|r: int, c: int|
                    0 <= r < self.height && 0 <= c < self.width implies (#[trigger] self.cell(r, c)
                        == Tile::Walkable <==> self.covered(r, c)) by {
                    let n = before.rooms@.len() as int;
                    if before.covered(r, c) {
                        let i = choose|i: int|
                            0 <= i < before.rooms@.len() && (#[trigger] before.rooms@[i]).contains_cell(c, r);
                        assert(self.rooms@[i] == before.rooms@[i]);
                    }
                    if room.contains_cell(c, r) {
                        assert(self.rooms@[n] == *room);
                    }
                    if self.covered(r, c) {
                        let i = choose|i: int|
                            0 <= i < self.rooms@.len() && (#[trigger] self.rooms@[i]).contains_cell(c, r);
                        if i < n {
                            assert(before.rooms@[i] == self.rooms@[i]);
                        }
                    }
                }
            }
        }
    }
}

/// A stamped board is determined by its list of rooms: two levels of the same
/// size that stamped the same rooms into empty boards hold the same tiles.
pub proof fn lemma_board_determined_by_rooms(a: Level, b: Level)
    requires
        a.shaped(),
        b.shaped(),
        a.stamped_exactly(),
        b.stamped_exactly(),
        a.width == b.width,
        a.height == b.height,
        a.rooms@ == b.rooms@,
    ensures
        forall|r: int| 0 <= r < a.height ==> (#[trigger] a.board@[r])@ == b.board@[r]@,
{
    assert forall|r: int| 0 <= r < a.height implies (#[trigger] a.board@[r])@ == b.board@[r]@ by {
        assert forall|c: int| 0 <= c < a.width implies a.board@[r]@[c] == b.board@[r]@[c] by {
            assert(a.covered(r, c) == b.covered(r, c));
            assert(a.cell(r, c) == Tile::Walkable <==> b.cell(r, c) == Tile::Walkable);
        }
        assert(a.board@[r]@ =~= b.board@[r]@);
    }
}

} // verus!
