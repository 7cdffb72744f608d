use vstd::prelude::*;

use rand::rngs::StdRng;

use crate::level::{Level, Tile};
use crate::random::gen_range;
use crate::room::Room;
use vstd::math::{max, min};

verus! {

/// The scatter generator: drops up to ten rooms at random places, keeps those
/// that touch no earlier room, and joins each kept room to the next by an
/// L-shaped path between their centres.
pub struct RoomsCorridors {
    pub level: Level,
}

pub const MAX_ROOMS: i32 = 10;

pub const MIN_ROOM_WIDTH: i32 = 4;

pub const MAX_ROOM_WIDTH: i32 = 8;

pub const MIN_ROOM_HEIGHT: i32 = 5;

pub const MAX_ROOM_HEIGHT: i32 = 12;

/// Whether the cell in row `r` and column `c` lies on the path from the centre
/// of `a` to the centre of `b`: along `a`'s centre row, then along `b`'s
/// centre column.
pub open spec fn on_link(a: Room, b: Room, r: int, c: int) -> bool {
    ||| (r == a.centre.y && min(a.centre.x as int, b.centre.x as int) <= c <= max(
        a.centre.x as int,
        b.centre.x as int,
    ))
    ||| (c == b.centre.x && min(a.centre.y as int, b.centre.y as int) <= r <= max(
        a.centre.y as int,
        b.centre.y as int,
    ))
}

/// Whether the cell lies on the path joining some room to the next among the
/// first `n` links.
pub open spec fn linked_within(rooms: Seq<Room>, n: int, r: int, c: int) -> bool {
    exists|i: int| 0 <= i < n && #[trigger] on_link(rooms[i], rooms[i + 1], r, c)
}

/// Whether the cell lies on the path joining some room to the next.
pub open spec fn linked(rooms: Seq<Room>, r: int, c: int) -> bool {
    linked_within(rooms, rooms.len() - 1, r, c)
}

/// Whether the rooms from index `from` on touch no room before them.
pub open spec fn apart_from(rooms: Seq<Room>, from: int) -> bool {
    forall|i: int, j: int|
        0 <= i < j < rooms.len() && from <= j ==> !(#[trigger] rooms[j]).overlaps(
            #[trigger] rooms[i],
        )
}

/// A room that this generator may keep on the level's board.
pub open spec fn scattered_room(level: Level, r: Room) -> bool {
    &&& level.fits(r)
    &&& r.consistent()
    &&& MIN_ROOM_WIDTH <= r.width < MAX_ROOM_WIDTH
    &&& MIN_ROOM_HEIGHT <= r.height < MAX_ROOM_HEIGHT
}

impl RoomsCorridors {
    /// Whether the centre of `r` is a cell of the board.
    pub open spec fn centre_on_board(level: Level, r: Room) -> bool {
        0 <= r.centre.x < level.width && 0 <= r.centre.y < level.height
    }

    /// Generates a level on a `width × height` board from the random stream.
    pub fn new(width: i32, height: i32, hash: &String, rng: &mut StdRng) -> (r: Level)
        requires
            MAX_ROOM_WIDTH - 1 <= width,
            MAX_ROOM_HEIGHT - 1 <= height,
        ensures
            r.shaped(),
            r.width == width,
            r.height == height,
            r.tile_size == 16,
            r.hash@ == hash@,
            1 <= r.rooms@.len() <= MAX_ROOMS,
            forall|i: int| 0 <= i < r.rooms@.len() ==> scattered_room(r, #[trigger] r.rooms@[i]),
            apart_from(r.rooms@, 0),
            forall|i: int, j: int|
                0 <= i < height && 0 <= j < width ==> (#[trigger] r.cell(i, j) == Tile::Walkable
                    <==> (r.covered(i, j) || linked(r.rooms@, i, j))),
    {
        let level = Level::new(width, height, hash);
        let mut map = RoomsCorridors { level };
        map.place_rooms(rng);
        proof {
            assert forall|i: int| 0 <= i < map.level.rooms@.len() implies Self::centre_on_board(
                map.level,
                #[trigger] map.level.rooms@[i],
            ) by {
                assert(scattered_room(map.level, map.level.rooms@[i]));
            }
        }
        let ghost placed = map.level;
        map.place_corridors(rng);
        proof {
            let fin = map.level;
            assert forall|i: int, j: int|
                0 <= i < height && 0 <= j < width implies (#[trigger] fin.cell(i, j)
                    == Tile::Walkable <==> (fin.covered(i, j) || linked(fin.rooms@, i, j))) by {
                assert(placed.cell(i, j) == Tile::Walkable <==> placed.covered(i, j));
            }
        }
        map.level
    }

    /// Tries `MAX_ROOMS` random rooms, shifting each back onto the board where
    /// it would overhang the right or bottom edge, and stamps those that
    /// intersect no room already on the level.
    pub fn place_rooms(&mut self, rng: &mut StdRng)
        requires
            old(self).level.shaped(),
            MAX_ROOM_WIDTH - 1 <= old(self).level.width,
            MAX_ROOM_HEIGHT - 1 <= old(self).level.height,
        ensures
            final(self).level.shaped(),
            final(self).level.width == old(self).level.width,
            final(self).level.height == old(self).level.height,
            final(self).level.tile_size == old(self).level.tile_size,
            final(self).level.hash@ == old(self).level.hash@,
            old(self).level.stamped_exactly() ==> final(self).level.stamped_exactly(),
            final(self).level.rooms@.subrange(0, old(self).level.rooms@.len() as int) == old(
                self,
            ).level.rooms@,
            old(self).level.rooms@.len() <= final(self).level.rooms@.len()
                <= old(self).level.rooms@.len() + MAX_ROOMS,
            old(self).level.rooms@.len() == 0 ==> final(self).level.rooms@.len() >= 1,
            forall|i: int|
                old(self).level.rooms@.len() <= i < final(self).level.rooms@.len()
                    ==> scattered_room(final(self).level, #[trigger] final(self).level.rooms@[i]),
            apart_from(final(self).level.rooms@, old(self).level.rooms@.len() as int),
    {
        let ghost start = self.level;
        let n0 = self.level.rooms.len();
        let mut n: i32 = 0;
        while n < MAX_ROOMS
            invariant
                0 <= n <= MAX_ROOMS,
                n0 == start.rooms@.len(),
                self.level.shaped(),
                self.level.width == start.width,
                self.level.height == start.height,
                MAX_ROOM_WIDTH - 1 <= start.width,
                MAX_ROOM_HEIGHT - 1 <= start.height,
                self.level.tile_size == start.tile_size,
                self.level.hash@ == start.hash@,
                start.stamped_exactly() ==> self.level.stamped_exactly(),
                self.level.rooms@.subrange(0, n0 as int) == start.rooms@,
                n0 <= self.level.rooms@.len() <= n0 + n,
                n0 == 0 && n > 0 ==> self.level.rooms@.len() >= 1,
                forall|i: int|
                    n0 <= i < self.level.rooms@.len() ==> scattered_room(
                        self.level,
                        #[trigger] self.level.rooms@[i],
                    ),
                apart_from(self.level.rooms@, n0 as int),
            decreases MAX_ROOMS - n,
        {
            let mut x = gen_range(rng, 0, self.level.width);
            let mut y = gen_range(rng, 0, self.level.height);
            let width = gen_range(rng, MIN_ROOM_WIDTH, MAX_ROOM_WIDTH);
            let height = gen_range(rng, MIN_ROOM_HEIGHT, MAX_ROOM_HEIGHT);
            if x > self.level.width - width {
                x = self.level.width - width;
            }
            if y > self.level.height - height {
                y = self.level.height - height;
            }
            let room = Room::new(x, y, width, height);
            let mut collides = false;
            let mut k: usize = 0;
            while k < self.level.rooms.len() && !collides
                invariant
                    0 <= k <= self.level.rooms@.len(),
                    collides ==> k < self.level.rooms@.len(),
                    !collides ==> forall|i: int| 0 <= i < k ==> !room.overlaps(
                        #[trigger] self.level.rooms@[i],
                    ),
                decreases self.level.rooms@.len() - k + if collides {
                    0int
                } else {
                    1int
                },
            {
                if room.intersects(&self.level.rooms[k]) {
                    collides = true;
                } else {
                    k = k + 1;
                }
            }
            if !collides {
                let ghost before = self.level;
                self.level.add_room(&room);
                proof {
                    let rs = self.level.rooms@;
                    assert(rs.subrange(0, n0 as int) =~= before.rooms@.subrange(0, n0 as int));
                    assert forall|i: int, j: int|
                        0 <= i < j < rs.len() && n0 <= j implies !(#[trigger] rs[j]).overlaps(
                            #[trigger] rs[i],
                        ) by {
                        if j < before.rooms@.len() {
                            assert(rs[j] == before.rooms@[j] && rs[i] == before.rooms@[i]);
                        } else {
                            assert(rs[i] == before.rooms@[i]);
                        }
                    }
                    assert forall|i: int| n0 <= i < rs.len() implies scattered_room(
                        self.level,
                        #[trigger] rs[i],
                    ) by {
                        if i < before.rooms@.len() {
                            assert(rs[i] == before.rooms@[i]);
                        }
                    }
                }
            }
            n = n + 1;
        }
    }

    /// Joins each room to the next by an L-shaped path between their centres:
    /// along the first centre's row and the second centre's column. A random
    /// bit picks which leg is drawn first.
    fn place_corridors(&mut self, rng: &mut StdRng)
        requires
            old(self).level.shaped(),
            old(self).level.rooms@.len() >= 1,
            forall|i: int|
                0 <= i < old(self).level.rooms@.len() ==> Self::centre_on_board(
                    old(self).level,
                    #[trigger] old(self).level.rooms@[i],
                ),
        ensures
            final(self).level.shaped(),
            final(self).level.width == old(self).level.width,
            final(self).level.height == old(self).level.height,
            final(self).level.tile_size == old(self).level.tile_size,
            final(self).level.hash@ == old(self).level.hash@,
            final(self).level.rooms@ == old(self).level.rooms@,
            forall|r: int, c: int|
                0 <= r < old(self).level.height && 0 <= c < old(self).level.width
                    ==> #[trigger] final(self).level.cell(r, c) == if linked(
                    old(self).level.rooms@,
                    r,
                    c,
                ) {
                    Tile::Walkable
                } else {
                    old(self).level.cell(r, c)
                },
    {
        let ghost start = self.level;
        let count = self.level.rooms.len();
        let mut i: usize = 0;
        while i < count - 1
            invariant
                count == start.rooms@.len(),
                count >= 1,
                0 <= i <= count - 1,
                self.level.shaped(),
                self.level.width == start.width,
                self.level.height == start.height,
                self.level.tile_size == start.tile_size,
                self.level.hash@ == start.hash@,
                self.level.rooms@ == start.rooms@,
                forall|k: int|
                    0 <= k < start.rooms@.len() ==> Self::centre_on_board(
                        start,
                        #[trigger] start.rooms@[k],
                    ),
                forall|r: int, c: int|
                    0 <= r < start.height && 0 <= c < start.width ==> #[trigger] self.level.cell(
                        r,
                        c,
                    ) == if linked_within(start.rooms@, i as int, r, c) {
                        Tile::Walkable
                    } else {
                        start.cell(r, c)
                    },
            decreases count - 1 - i,
        {
            let room = self.level.rooms[i];
            let other = self.level.rooms[i + 1];
            let ghost before = self.level;
            assert(Self::centre_on_board(start, start.rooms@[i as int]));
            assert(Self::centre_on_board(start, start.rooms@[i + 1]));
            if gen_range(rng, 0, 2) == 0 {
                if room.centre.x <= other.centre.x {
                    self.horz_corridor(room.centre.x, other.centre.x, room.centre.y);
                } else {
                    self.horz_corridor(other.centre.x, room.centre.x, room.centre.y);
                }
                if room.centre.y <= other.centre.y {
                    self.vert_corridor(room.centre.y, other.centre.y, other.centre.x);
                } else {
                    self.vert_corridor(other.centre.y, room.centre.y, other.centre.x);
                }
            } else {
                if room.centre.y <= other.centre.y {
                    self.vert_corridor(room.centre.y, other.centre.y, other.centre.x);
                } else {
                    self.vert_corridor(other.centre.y, room.centre.y, other.centre.x);
                }
                if room.centre.x <= other.centre.x {
                    self.horz_corridor(room.centre.x, other.centre.x, room.centre.y);
                } else {
                    self.horz_corridor(other.centre.x, room.centre.x, room.centre.y);
                }
            }
            proof {
                assert forall|r: int, c: int|
                    0 <= r < start.height && 0 <= c < start.width implies #[trigger] self.level.cell(
                        r,
                        c,
                    ) == if linked_within(start.rooms@, i + 1, r, c) {
                        Tile::Walkable
                    } else {
                        start.cell(r, c)
                    } by {
                    if on_link(start.rooms@[i as int], start.rooms@[i + 1], r, c) {
                        assert(linked_within(start.rooms@, i + 1, r, c));
                    } else if linked_within(start.rooms@, i + 1, r, c) {
                        let k = choose|k: int|
                            0 <= k < i + 1 && #[trigger] on_link(
                                start.rooms@[k],
                                start.rooms@[k + 1],
                                r,
                                c,
                            );
                        assert(k < i);
                        assert(linked_within(start.rooms@, i as int, r, c));
                    } else {
                        assert(!linked_within(start.rooms@, i as int, r, c));
                    }
                }
            }
            i = i + 1;
        }
    }

    /// Marks columns `[start_x, end_x]` of row `y` walkable; an empty span
    /// changes nothing.
    fn horz_corridor(&mut self, start_x: i32, end_x: i32, y: i32)
        requires
            old(self).level.shaped(),
            0 <= y < old(self).level.height,
            start_x <= end_x ==> 0 <= start_x && end_x < old(self).level.width,
        ensures
            final(self).level.shaped(),
            final(self).level.width == old(self).level.width,
            final(self).level.height == old(self).level.height,
            final(self).level.tile_size == old(self).level.tile_size,
            final(self).level.hash@ == old(self).level.hash@,
            final(self).level.rooms@ == old(self).level.rooms@,
            forall|r: int, c: int|
                0 <= r < old(self).level.height && 0 <= c < old(self).level.width
                    ==> #[trigger] final(self).level.cell(r, c) == if r == y && start_x <= c
                    <= end_x {
                    Tile::Walkable
                } else {
                    old(self).level.cell(r, c)
                },
    {
        let ghost start = self.level;
        let mut col: i32 = start_x;
        while col <= end_x
            invariant
                start_x <= end_x ==> 0 <= start_x <= col <= end_x + 1 && end_x < start.width,
                start_x > end_x ==> col == start_x,
                0 <= y < start.height,
                self.level.shaped(),
                self.level.width == start.width,
                self.level.height == start.height,
                self.level.tile_size == start.tile_size,
                self.level.hash@ == start.hash@,
                self.level.rooms@ == start.rooms@,
                forall|r: int, c: int|
                    0 <= r < start.height && 0 <= c < start.width ==> #[trigger] self.level.cell(
                        r,
                        c,
                    ) == if r == y && start_x <= c < col {
                        Tile::Walkable
                    } else {
                        start.cell(r, c)
                    },
            decreases end_x + 1 - col,
        {
            self.set_walkable(y as usize, col as usize);
            col = col + 1;
        }
    }

    /// Marks rows `[start_y, end_y]` of column `x` walkable; an empty span
    /// changes nothing.
    fn vert_corridor(&mut self, start_y: i32, end_y: i32, x: i32)
        requires
            old(self).level.shaped(),
            0 <= x < old(self).level.width,
            start_y <= end_y ==> 0 <= start_y && end_y < old(self).level.height,
        ensures
            final(self).level.shaped(),
            final(self).level.width == old(self).level.width,
            final(self).level.height == old(self).level.height,
            final(self).level.tile_size == old(self).level.tile_size,
            final(self).level.hash@ == old(self).level.hash@,
            final(self).level.rooms@ == old(self).level.rooms@,
            forall|r: int, c: int|
                0 <= r < old(self).level.height && 0 <= c < old(self).level.width
                    ==> #[trigger] final(self).level.cell(r, c) == if c == x && start_y <= r
                    <= end_y {
                    Tile::Walkable
                } else {
                    old(self).level.cell(r, c)
                },
    {
        let ghost start = self.level;
        let mut row: i32 = start_y;
        while row <= end_y
            invariant
                start_y <= end_y ==> 0 <= start_y <= row <= end_y + 1 && end_y < start.height,
                start_y > end_y ==> row == start_y,
                0 <= x < start.width,
                self.level.shaped(),
                self.level.width == start.width,
                self.level.height == start.height,
                self.level.tile_size == start.tile_size,
                self.level.hash@ == start.hash@,
                self.level.rooms@ == start.rooms@,
                forall|r: int, c: int|
                    0 <= r < start.height && 0 <= c < start.width ==> #[trigger] self.level.cell(
                        r,
                        c,
                    ) == if c == x && start_y <= r < row {
                        Tile::Walkable
                    } else {
                        start.cell(r, c)
                    },
            decreases end_y + 1 - row,
        {
            self.set_walkable(row as usize, x as usize);
            row = row + 1;
        }
    }

    /// Marks the cell in row `r` and column `c` walkable.
    fn set_walkable(&mut self, r: usize, c: usize)
        requires
            old(self).level.shaped(),
            r < old(self).level.height,
            c < old(self).level.width,
        ensures
            final(self).level.shaped(),
            final(self).level.width == old(self).level.width,
            final(self).level.height == old(self).level.height,
            final(self).level.tile_size == old(self).level.tile_size,
            final(self).level.hash@ == old(self).level.hash@,
            final(self).level.rooms@ == old(self).level.rooms@,
            forall|i: int, j: int|
                0 <= i < old(self).level.height && 0 <= j < old(self).level.width
                    ==> #[trigger] final(self).level.cell(i, j) == if i == r && j == c {
                    Tile::Walkable
                } else {
                    old(self).level.cell(i, j)
                },
    {
        let ghost prev = self.level;
        self.level.board[r][c] = Tile::Walkable;
        assert(self.level.board@ == prev.board@.update(r as int, self.level.board@[r as int]));
        assert forall|i: int|
            0 <= i < self.level.height implies (#[trigger] self.level.board@[i])@.len()
                == self.level.width by {
            if i != r as int {
                assert(self.level.board@[i] == prev.board@[i]);
            }
        }
        assert forall|i: int, j: int|
            0 <= i < prev.height && 0 <= j < prev.width implies #[trigger] self.level.cell(i, j)
                == if i == r && j == c {
                Tile::Walkable
            } else {
                prev.cell(i, j)
            } by {
            if i != r as int {
                assert(self.level.board@[i] == prev.board@[i]);
            }
        }
    }
}

} // verus!
