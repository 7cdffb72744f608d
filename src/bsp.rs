use vstd::prelude::*;

use rand::rngs::StdRng;

use crate::level::Level;
use crate::random::gen_range;
use crate::room::Room;
use vstd::math::{max, min};

verus! {

/// A node of the partition tree: a rectangular region that is either split
/// into two children or, as a leaf, may hold one room.
pub struct Leaf {
    pub min_size: i32,
    pub x: i32,
    pub y: i32,
    pub width: i32,
    pub height: i32,
    pub left_child: Option<Box<Leaf>>,
    pub right_child: Option<Box<Leaf>>,
    pub room: Option<Room>,
}

/// Whether a cut through a `w × h` region runs horizontally (splitting the
/// height), given the random bit `bit`: a region at least 1.25 times as wide as
/// tall is always cut vertically, one at least 1.25 times as tall as wide
/// always horizontally, and any other follows the bit.
pub open spec fn cuts_horizontally(w: int, h: int, bit: bool) -> bool {
    if w > h && 4 * w >= 5 * h {
        false
    } else if h > w && 4 * h >= 5 * w {
        true
    } else {
        bit
    }
}

/// A horizontal corridor over columns `[x1, x2]` of row `y`.
pub open spec fn horz_segment(x1: int, y: int, x2: int) -> Room {
    Room::rect(x1, y, x2 - x1 + 1, 1)
}

/// A vertical corridor over rows `[y1, y2]` of column `x`.
pub open spec fn vert_segment(x: int, y1: int, y2: int) -> Room {
    Room::rect(x, y1, 1, y2 - y1 + 1)
}

/// The two corridors of an L-shaped route from cell `(x1, y1)` to cell
/// `(x2, y2)`: along row `y1` then down column `x2`, or down column `x1` then
/// along row `y2`.
pub open spec fn l_path(x1: int, y1: int, x2: int, y2: int, horizontal_first: bool) -> Seq<Room> {
    if horizontal_first {
        seq![horz_segment(min(x1, x2), y1, max(x1, x2)), vert_segment(x2, min(y1, y2), max(y1, y2))]
    } else {
        seq![vert_segment(x1, min(y1, y2), max(y1, y2)), horz_segment(min(x1, x2), y2, max(x1, x2))]
    }
}

/// `c` is an L-shaped route between some cell of `a` and some cell of `b`.
pub open spec fn joins(a: Room, b: Room, c: Seq<Room>) -> bool {
    exists|x1: int, y1: int, x2: int, y2: int, horizontal_first: bool|
        a.contains_cell(x1, y1) && b.contains_cell(x2, y2) && c == #[trigger] l_path(
            x1,
            y1,
            x2,
            y2,
            horizontal_first,
        )
}

/// A room with a positive extent whose cells have non-negative `i32` coordinates.
pub open spec fn usable(r: Room) -> bool {
    &&& r.consistent()
    &&& 1 <= r.width
    &&& 1 <= r.height
    &&& 0 <= r.x
    &&& 0 <= r.y
    &&& r.x + r.width <= i32::MAX
    &&& r.y + r.height <= i32::MAX
}

/// The cut that a `width × height` region takes when the random bit is
/// `bit`: whether it runs horizontally, and the exclusive upper bound
/// `extent - min_size` for its offset; `None` when the cut extent is too small
/// to leave at least `min_size` on both sides.
pub fn plan_cut(width: i32, height: i32, min_size: i32, bit: bool) -> (r: Option<(bool, i32)>)
    requires
        1 <= min_size,
        1 <= width,
        1 <= height,
    ensures
        ({
            let horizontal = cuts_horizontally(width as int, height as int, bit);
            let extent = if horizontal {
                height as int
            } else {
                width as int
            };
            &&& (r is None <==> extent - min_size <= min_size)
            &&& (r is Some ==> r.unwrap() == (horizontal, (extent - min_size) as i32))
        }),
{
    let mut split_horz = bit;
    let w = width as i64;
    let h = height as i64;
    if w > h && 4 * w >= 5 * h {
        split_horz = false;
    } else if h > w && 4 * h >= 5 * w {
        split_horz = true;
    }
    let max = if split_horz {
        height - min_size
    } else {
        width - min_size
    };
    if max <= min_size {
        None
    } else {
        Some((split_horz, max))
    }
}

impl Leaf {
    pub open spec fn is_leaf_spec(self) -> bool {
        self.left_child is None && self.right_child is None
    }

    /// An unsplit node without a room.
    pub open spec fn blank(x: int, y: int, w: int, h: int, min_size: int) -> Leaf {
        Leaf {
            min_size: min_size as i32,
            x: x as i32,
            y: y as i32,
            width: w as i32,
            height: h as i32,
            left_child: None,
            right_child: None,
            room: None,
        }
    }

    /// The extent that a cut in the given orientation divides.
    pub open spec fn extent(self, horizontal: bool) -> int {
        if horizontal {
            self.height as int
        } else {
            self.width as int
        }
    }

    /// The first part of the region when cut at offset `pos`.
    pub open spec fn first_part(self, horizontal: bool, pos: int) -> Leaf {
        if horizontal {
            Self::blank(self.x as int, self.y as int, self.width as int, pos, self.min_size as int)
        } else {
            Self::blank(self.x as int, self.y as int, pos, self.height as int, self.min_size as int)
        }
    }

    /// The second part of the region when cut at offset `pos`.
    pub open spec fn second_part(self, horizontal: bool, pos: int) -> Leaf {
        if horizontal {
            Self::blank(
                self.x as int,
                self.y + pos,
                self.width as int,
                self.height - pos,
                self.min_size as int,
            )
        } else {
            Self::blank(
                self.x + pos,
                self.y as int,
                self.width - pos,
                self.height as int,
                self.min_size as int,
            )
        }
    }

    /// This node after cutting its region at offset `pos`.
    pub open spec fn cut(self, horizontal: bool, pos: int) -> Leaf {
        Leaf {
            left_child: Some(Box::new(self.first_part(horizontal, pos))),
            right_child: Some(Box::new(self.second_part(horizontal, pos))),
            ..self
        }
    }

    /// Whether the region is too small to cut in the given orientation: both
    /// parts must keep at least `min_size` along the cut extent.
    pub open spec fn too_small(self, horizontal: bool) -> bool {
        self.extent(horizontal) - self.min_size <= self.min_size
    }

    /// The region's own bounds: a positive extent, a positive minimum size, and
    /// coordinates that stay within `i32`.
    pub open spec fn region_ok(self) -> bool {
        &&& 1 <= self.min_size
        &&& 0 <= self.x
        &&& 0 <= self.y
        &&& 1 <= self.width
        &&& 1 <= self.height
        &&& self.x + self.width <= i32::MAX
        &&& self.y + self.height <= i32::MAX
    }

    /// Whether `l` and `r` partition this region exactly, along one axis,
    /// and share its minimum size.
    pub open spec fn split_into(self, l: Leaf, r: Leaf) -> bool {
        &&& l.min_size == self.min_size
        &&& r.min_size == self.min_size
        &&& {
            ||| (l.x == self.x && l.y == self.y && l.width == self.width && r.x == self.x && r.y
                == self.y + l.height && r.width == self.width && l.height + r.height
                == self.height)
            ||| (l.x == self.x && l.y == self.y && l.height == self.height && r.y == self.y && r.x
                == self.x + l.width && r.height == self.height && l.width + r.width
                == self.width)
        }
    }

    /// A well-formed tree: every region is in bounds, every inner node has
    /// both children, which partition it, and holds no room.
    pub open spec fn wf(self) -> bool
        decreases self,
    {
        &&& self.region_ok()
        &&& (self.left_child is Some <==> self.right_child is Some)
        &&& match (self.left_child, self.right_child) {
            (Some(l), Some(r)) => {
                &&& self.room is None
                &&& self.split_into(*l, *r)
                &&& l.wf()
                &&& r.wf()
            },
            _ => true,
        }
    }

    /// The representative room of the subtree: a leaf's own room; for an inner
    /// node, the left subtree's if it has one, else the right subtree's.
    pub open spec fn rep_room(self) -> Option<Room>
        decreases self,
    {
        if self.is_leaf_spec() {
            self.room
        } else {
            let l = match self.left_child {
                Some(b) => b.rep_room(),
                None => None,
            };
            if l is Some {
                l
            } else {
                match self.right_child {
                    Some(b) => b.rep_room(),
                    None => None,
                }
            }
        }
    }

    /// No node of the tree holds a room.
    pub open spec fn no_rooms(self) -> bool
        decreases self,
    {
        &&& self.room is None
        &&& match self.left_child {
            Some(l) => l.no_rooms(),
            None => true,
        }
        &&& match self.right_child {
            Some(r) => r.no_rooms(),
            None => true,
        }
    }

    /// Every leaf of the tree is too small to cut in an orientation that the
    /// random bit could have chosen for it.
    pub open spec fn settled(self) -> bool
        decreases self,
    {
        &&& (self.is_leaf_spec() ==> self.too_small(
            cuts_horizontally(self.width as int, self.height as int, false),
        ) || self.too_small(cuts_horizontally(self.width as int, self.height as int, true)))
        &&& match self.left_child {
            Some(l) => l.settled(),
            None => true,
        }
        &&& match self.right_child {
            Some(r) => r.settled(),
            None => true,
        }
    }

    /// Every region of the tree is at least `w` wide and `h` tall.
    pub open spec fn sizes_at_least(self, w: int, h: int) -> bool
        decreases self,
    {
        &&& w <= self.width
        &&& h <= self.height
        &&& match self.left_child {
            Some(l) => l.sizes_at_least(w, h),
            None => true,
        }
        &&& match self.right_child {
            Some(r) => r.sizes_at_least(w, h),
            None => true,
        }
    }

    /// Two nodes cover the same region with the same minimum size.
    pub open spec fn same_region(self, other: Leaf) -> bool {
        &&& self.x == other.x
        &&& self.y == other.y
        &&& self.width == other.width
        &&& self.height == other.height
        &&& self.min_size == other.min_size
    }

    /// Two trees have the same shape and the same region at every node,
    /// whatever rooms they hold.
    pub open spec fn same_shape(self, other: Leaf) -> bool
        decreases self,
    {
        &&& self.same_region(other)
        &&& match (self.left_child, other.left_child) {
            (Some(a), Some(b)) => a.same_shape(*b),
            (None, None) => true,
            _ => false,
        }
        &&& match (self.right_child, other.right_child) {
            (Some(a), Some(b)) => a.same_shape(*b),
            (None, None) => true,
            _ => false,
        }
    }

    pub proof fn lemma_sizes_weaken(self, w: int, h: int, w2: int, h2: int)
        requires
            self.sizes_at_least(w, h),
            w2 <= w,
            h2 <= h,
        ensures
            self.sizes_at_least(w2, h2),
        decreases self,
    {
        if let Some(l) = self.left_child {
            l.lemma_sizes_weaken(w, h, w2, h2);
        }
        if let Some(r) = self.right_child {
            r.lemma_sizes_weaken(w, h, w2, h2);
        }
    }

    /// Where a leaf's room may lie: inside the region, at least 4 wide and 3
    /// tall, ending before the region's right and bottom edges.
    pub open spec fn room_fits(self, r: Room) -> bool {
        &&& r.consistent()
        &&& 4 <= r.width
        &&& 3 <= r.height
        &&& self.x <= r.x
        &&& r.x + r.width < self.x + self.width
        &&& self.y <= r.y
        &&& r.y + r.height < self.y + self.height
    }

    /// Every leaf holds a room that fits it; no inner node holds one.
    pub open spec fn placed(self) -> bool
        decreases self,
    {
        &&& (self.is_leaf_spec() ==> self.room is Some && self.room_fits(self.room.unwrap()))
        &&& (!self.is_leaf_spec() ==> self.room is None)
        &&& match self.left_child {
            Some(l) => l.placed(),
            None => true,
        }
        &&& match self.right_child {
            Some(r) => r.placed(),
            None => true,
        }
    }

    /// How many rooms the room pass appends for this subtree: one per leaf,
    /// and two corridors per inner node whose children both have a
    /// representative room.
    pub open spec fn emitted_len(self) -> nat
        decreases self,
    {
        if self.is_leaf_spec() {
            1
        } else {
            match (self.left_child, self.right_child) {
                (Some(l), Some(r)) => l.emitted_len() + r.emitted_len() + if l.rep_room() is Some
                    && r.rep_room() is Some {
                    2nat
                } else {
                    0nat
                },
                _ => 0,
            }
        }
    }

    /// `s` is what the room pass appends for this subtree, in post order: for a
    /// leaf its room; for an inner node the left subtree's rooms, then the
    /// right subtree's, then the corridors joining their representative rooms.
    pub open spec fn emits(self, s: Seq<Room>) -> bool
        decreases self,
    {
        if self.is_leaf_spec() {
            self.room is Some && s == seq![self.room.unwrap()]
        } else {
            match (self.left_child, self.right_child) {
                (Some(l), Some(r)) => {
                    let nl = l.emitted_len() as int;
                    let nr = r.emitted_len() as int;
                    &&& s.len() == self.emitted_len()
                    &&& l.emits(s.subrange(0, nl))
                    &&& r.emits(s.subrange(nl, nl + nr))
                    &&& (l.rep_room() is Some && r.rep_room() is Some ==> joins(
                        l.rep_room().unwrap(),
                        r.rep_room().unwrap(),
                        s.subrange(nl + nr, s.len() as int),
                    ))
                },
                _ => false,
            }
        }
    }

    /// In a tree whose leaves all hold rooms, the representative room exists
    /// and lies inside the region.
    pub proof fn lemma_rep_room_inside(self)
        requires
            self.wf(),
            self.placed(),
        ensures
            self.rep_room() is Some,
            self.room_fits(self.rep_room().unwrap()),
            usable(self.rep_room().unwrap()),
        decreases self,
    {
        if !self.is_leaf_spec() {
            let l = *self.left_child.unwrap();
            let r = *self.right_child.unwrap();
            l.lemma_rep_room_inside();
            r.lemma_rep_room_inside();
        }
    }

    /// An unsplit node without a room covering the given region.
    pub fn new(x: i32, y: i32, width: i32, height: i32, min_size: i32) -> (r: Leaf)
        ensures
            r == Self::blank(x as int, y as int, width as int, height as int, min_size as int),
    {
        Leaf { min_size, x, y, width, height, left_child: None, right_child: None, room: None }
    }

    /// A node is a leaf when it has no children.
    pub fn is_leaf(&self) -> (r: bool)
        ensures
            r == self.is_leaf_spec(),
    {
        match self.left_child {
            None => match self.right_child {
                None => true,
                Some(_) => false,
            },
            Some(_) => false,
        }
    }

    /// The representative room of this subtree, searching left before right.
    pub fn get_room(&self) -> (r: Option<Room>)
        ensures
            r == self.rep_room(),
        decreases self,
    {
        if self.is_leaf() {
            return self.room;
        }
        let mut left_room: Option<Room> = None;
        let mut right_room: Option<Room> = None;
        if let Some(l) = &self.left_child {
            left_room = l.get_room();
        }
        if let Some(r) = &self.right_child {
            right_room = r.get_room();
        }
        match (left_room, right_room) {
            (None, None) => None,
            (Some(room), _) => Some(room),
            (_, Some(room)) => Some(room),
        }
    }

    /// Tries to cut the region in two. One random bit proposes the orientation
    /// (it is drawn even when the aspect ratio then overrides it); if the cut
    /// extent leaves room for two parts of at least `min_size`, the offset is
    /// drawn from `[min_size, extent - min_size)` and the two children are made.
    pub fn split(&mut self, rng: &mut StdRng) -> (r: bool)
        requires
            old(self).region_ok(),
        ensures
            exists|bit: bool|
                {
                    let horizontal = #[trigger] cuts_horizontally(
                        old(self).width as int,
                        old(self).height as int,
                        bit,
                    );
                    if old(self).too_small(horizontal) {
                        !r && *final(self) == *old(self)
                    } else {
                        r && exists|pos: int|
                            old(self).min_size <= pos < old(self).extent(horizontal) - old(
                                self,
                            ).min_size && *final(self) == #[trigger] old(self).cut(horizontal, pos)
                    }
                },
            old(self).too_small(true) && old(self).too_small(false) ==> !r,
    {
        let draw = gen_range(rng, 0, 2);
        let (split_horz, max) = match plan_cut(self.width, self.height, self.min_size, draw != 0) {
            Some(plan) => plan,
            None => return false,
        };
        let split_pos = gen_range(rng, self.min_size, max);
        if split_horz {
            self.left_child = Some(
                Box::new(Leaf::new(self.x, self.y, self.width, split_pos, self.min_size)),
            );
            self.right_child = Some(
                Box::new(
                    Leaf::new(
                        self.x,
                        self.y + split_pos,
                        self.width,
                        self.height - split_pos,
                        self.min_size,
                    ),
                ),
            );
        } else {
            self.left_child = Some(
                Box::new(Leaf::new(self.x, self.y, split_pos, self.height, self.min_size)),
            );
            self.right_child = Some(
                Box::new(
                    Leaf::new(
                        self.x + split_pos,
                        self.y,
                        self.width - split_pos,
                        self.height,
                        self.min_size,
                    ),
                ),
            );
        }
        assert(*self == old(self).cut(split_horz, split_pos as int));
        true
    }

    /// Builds the tree: a leaf tries to split, and after a successful split
    /// both children are generated in turn, left first.
    pub fn generate(&mut self, rng: &mut StdRng)
        requires
            old(self).wf(),
            old(self).no_rooms(),
        ensures
            final(self).wf(),
            final(self).no_rooms(),
            final(self).same_region(*old(self)),
            old(self).is_leaf_spec() ==> final(self).settled(),
            old(self).is_leaf_spec() ==> final(self).sizes_at_least(
                min(old(self).width as int, old(self).min_size as int),
                min(old(self).height as int, old(self).min_size as int),
            ),
            !old(self).is_leaf_spec() ==> *final(self) == *old(self),
        decreases old(self).width + old(self).height,
    {
        if self.is_leaf() {
            let ghost start = *self;
            let ghost wmin = min(start.width as int, start.min_size as int);
            let ghost hmin = min(start.height as int, start.min_size as int);
            if self.split(rng) {
                let ghost bit = choose|bit: bool|
                    {
                        let horizontal = #[trigger] cuts_horizontally(
                            start.width as int,
                            start.height as int,
                            bit,
                        );
                        !start.too_small(horizontal) && exists|pos: int|
                            start.min_size <= pos < start.extent(horizontal) - start.min_size
                                && *self == #[trigger] start.cut(horizontal, pos)
                    };
                let ghost horizontal = cuts_horizontally(
                    start.width as int,
                    start.height as int,
                    bit,
                );
                let ghost pos = choose|pos: int|
                    start.min_size <= pos < start.extent(horizontal) - start.min_size && *self
                        == #[trigger] start.cut(horizontal, pos);
                let ghost first = start.first_part(horizontal, pos);
                let ghost second = start.second_part(horizontal, pos);
                let mut l = self.left_child.take().unwrap();
                assert(*l == first);
                (&mut *l).generate(rng);
                self.left_child = Some(l);
                let mut r = self.right_child.take().unwrap();
                assert(*r == second);
                (&mut *r).generate(rng);
                self.right_child = Some(r);
                proof {
                    let fl = *self.left_child.unwrap();
                    let fr = *self.right_child.unwrap();
                    fl.lemma_sizes_weaken(
                        min(first.width as int, first.min_size as int),
                        min(first.height as int, first.min_size as int),
                        wmin,
                        hmin,
                    );
                    fr.lemma_sizes_weaken(
                        min(second.width as int, second.min_size as int),
                        min(second.height as int, second.min_size as int),
                        wmin,
                        hmin,
                    );
                    assert(start.split_into(fl, fr));
                }
            }
        }
    }

    /// The room pass, in post order: the left subtree, then the right subtree,
    /// then, at a leaf, a room with width from `[4, width)`, height from
    /// `[3, height)` and offsets from `[0, width - room width)` and
    /// `[0, height - room height)`; at an inner node, the corridors joining its
    /// two children. Everything made is appended to `rooms`.
    pub fn create_rooms(&mut self, rng: &mut StdRng, rooms: &mut Vec<Room>)
        requires
            old(self).wf(),
            old(self).sizes_at_least(5, 4),
        ensures
            final(self).wf(),
            final(self).same_shape(*old(self)),
            final(self).is_leaf_spec() == old(self).is_leaf_spec(),
            old(self).settled() ==> final(self).settled(),
            final(self).placed(),
            final(rooms)@.len() == old(rooms)@.len() + final(self).emitted_len(),
            final(rooms)@.subrange(0, old(rooms)@.len() as int) == old(rooms)@,
            final(self).emits(
                final(rooms)@.subrange(old(rooms)@.len() as int, final(rooms)@.len() as int),
            ),
        decreases old(self).width + old(self).height,
    {
        let ghost start = rooms@;
        proof {
            if !self.is_leaf_spec() {
                let l = *self.left_child.unwrap();
                let r = *self.right_child.unwrap();
                assert(l.wf() && r.wf() && self.split_into(l, r));
                assert(l.width + l.height < self.width + self.height);
                assert(r.width + r.height < self.width + self.height);
            }
        }
        if self.left_child.is_some() {
            let mut l = self.left_child.take().unwrap();
            (&mut *l).create_rooms(rng, rooms);
            self.left_child = Some(l);
        }
        let ghost after_left = rooms@;
        if self.right_child.is_some() {
            let mut r = self.right_child.take().unwrap();
            (&mut *r).create_rooms(rng, rooms);
            self.right_child = Some(r);
        }
        let ghost after_right = rooms@;
        if self.is_leaf() {
            let width = gen_range(rng, 4, self.width);
            let height = gen_range(rng, 3, self.height);
            let x = gen_range(rng, 0, self.width - width);
            let y = gen_range(rng, 0, self.height - height);
            let room = Room::new(x + self.x, y + self.y, width, height);
            self.room = Some(room);
            rooms.push(room);
            assert(rooms@.subrange(start.len() as int, rooms@.len() as int) =~= seq![room]);
            assert(rooms@.subrange(0, start.len() as int) =~= start);
        }
        if let (Some(l), Some(r)) = (&self.left_child, &self.right_child) {
            proof {
                l.lemma_rep_room_inside();
                r.lemma_rep_room_inside();
            }
            create_corridors(rng, l, r, rooms);
            proof {
                let nl = l.emitted_len() as int;
                let nr = r.emitted_len() as int;
                let n0 = start.len() as int;
                let s = rooms@.subrange(n0, rooms@.len() as int);
                assert(s.subrange(0, nl) =~= after_left.subrange(n0, n0 + nl));
                assert(s.subrange(nl, nl + nr) =~= after_right.subrange(n0 + nl, n0 + nl + nr));
                assert(s.subrange(nl + nr, s.len() as int) =~= rooms@.subrange(
                    n0 + nl + nr,
                    n0 + nl + nr + 2,
                ));
                assert(rooms@.subrange(0, n0) =~= start);
            }
        }
    }
}

/// A corridor one tile tall over columns `[start_x, end_x]` of row `start_y`.
pub fn horz_corridor(start_x: i32, start_y: i32, end_x: i32) -> (r: Room)
    requires
        start_x <= end_x < i32::MAX,
        end_x - start_x < i32::MAX,
        start_y < i32::MAX,
    ensures
        r == horz_segment(start_x as int, start_y as int, end_x as int),
{
    Room::new(start_x, start_y, (end_x - start_x) + 1, 1)
}

/// A corridor one tile wide over rows `[start_y, end_y]` of column `start_x`.
pub fn vert_corridor(start_x: i32, start_y: i32, end_y: i32) -> (r: Room)
    requires
        start_y <= end_y < i32::MAX,
        end_y - start_y < i32::MAX,
        start_x < i32::MAX,
    ensures
        r == vert_segment(start_x as int, start_y as int, end_y as int),
{
    Room::new(start_x, start_y, 1, (end_y - start_y) + 1)
}

/// Appends the L-shaped route from cell `(x1, y1)` to cell `(x2, y2)`.
pub fn route_corridors(
    x1: i32,
    y1: i32,
    x2: i32,
    y2: i32,
    horizontal_first: bool,
    corridors: &mut Vec<Room>,
)
    requires
        max(x1 as int, x2 as int) < i32::MAX,
        max(y1 as int, y2 as int) < i32::MAX,
        max(x1 as int, x2 as int) - min(x1 as int, x2 as int) < i32::MAX,
        max(y1 as int, y2 as int) - min(y1 as int, y2 as int) < i32::MAX,
    ensures
        final(corridors)@ == old(corridors)@ + l_path(
            x1 as int,
            y1 as int,
            x2 as int,
            y2 as int,
            horizontal_first,
        ),
{
    if horizontal_first {
        if x1 <= x2 {
            corridors.push(horz_corridor(x1, y1, x2));
        } else {
            corridors.push(horz_corridor(x2, y1, x1));
        }
        if y1 <= y2 {
            corridors.push(vert_corridor(x2, y1, y2));
        } else {
            corridors.push(vert_corridor(x2, y2, y1));
        }
    } else {
        if y1 <= y2 {
            corridors.push(vert_corridor(x1, y1, y2));
        } else {
            corridors.push(vert_corridor(x1, y2, y1));
        }
        if x1 <= x2 {
            corridors.push(horz_corridor(x1, y2, x2));
        } else {
            corridors.push(horz_corridor(x2, y2, x1));
        }
    }
    assert(final(corridors)@ =~= old(corridors)@ + l_path(
        x1 as int,
        y1 as int,
        x2 as int,
        y2 as int,
        horizontal_first,
    ));
}

/// Connects two sibling subtrees: picks a random cell in each one's
/// representative room, then a random bit for which leg of the L comes first,
/// and appends the two corridors. Does nothing when either side has no room.
pub fn create_corridors(rng: &mut StdRng, left: &Leaf, right: &Leaf, corridors: &mut Vec<Room>)
    requires
        left.rep_room() is Some ==> usable(left.rep_room().unwrap()),
        right.rep_room() is Some ==> usable(right.rep_room().unwrap()),
    ensures
        match (left.rep_room(), right.rep_room()) {
            (Some(a), Some(b)) => {
                &&& final(corridors)@.len() == old(corridors)@.len() + 2
                &&& final(corridors)@.subrange(0, old(corridors)@.len() as int) == old(corridors)@
                &&& joins(
                    a,
                    b,
                    final(corridors)@.subrange(
                        old(corridors)@.len() as int,
                        old(corridors)@.len() + 2int,
                    ),
                )
            },
            _ => final(corridors)@ == old(corridors)@,
        },
{
    if let (Some(left_room), Some(right_room)) = (left.get_room(), right.get_room()) {
        let lx = gen_range(rng, left_room.x, left_room.x + left_room.width);
        let ly = gen_range(rng, left_room.y, left_room.y + left_room.height);
        let rx = gen_range(rng, right_room.x, right_room.x + right_room.width);
        let ry = gen_range(rng, right_room.y, right_room.y + right_room.height);
        let order = gen_range(rng, 0, 2);
        let ghost before = corridors@;
        route_corridors(lx, ly, rx, ry, order == 0, corridors);
        proof {
            let added = corridors@.subrange(before.len() as int, before.len() + 2int);
            assert(added =~= l_path(lx as int, ly as int, rx as int, ry as int, order == 0));
            assert(corridors@.subrange(0, before.len() as int) =~= before);
            assert(left_room.contains_cell(lx as int, ly as int));
            assert(right_room.contains_cell(rx as int, ry as int));
        }
    }
}

/// Both legs of an L-shaped route between two cells of a region lie in the region.
pub proof fn lemma_path_inside(
    x1: int,
    y1: int,
    x2: int,
    y2: int,
    horizontal_first: bool,
    x: int,
    y: int,
    w: int,
    h: int,
)
    requires
        0 <= x,
        0 <= y,
        x + w <= i32::MAX,
        y + h <= i32::MAX,
        x <= x1 < x + w,
        x <= x2 < x + w,
        y <= y1 < y + h,
        y <= y2 < y + h,
    ensures
        forall|i: int|
            0 <= i < 2 ==> {
                let c = #[trigger] l_path(x1, y1, x2, y2, horizontal_first)[i];
                usable(c) && c.within(x, y, w, h)
            },
{
}

impl Leaf {
    /// Everything the room pass appends for a tree lies in the tree's region,
    /// and there is at least one room.
    pub proof fn lemma_emitted_inside(self, s: Seq<Room>)
        requires
            self.wf(),
            self.placed(),
            self.emits(s),
        ensures
            s.len() >= 1,
            forall|i: int|
                0 <= i < s.len() ==> usable(#[trigger] s[i]) && s[i].within(
                    self.x as int,
                    self.y as int,
                    self.width as int,
                    self.height as int,
                ),
        decreases self,
    {
        if self.is_leaf_spec() {
            assert(s[0] == self.room.unwrap());
        } else {
            let l = *self.left_child.unwrap();
            let r = *self.right_child.unwrap();
            let nl = l.emitted_len() as int;
            let nr = r.emitted_len() as int;
            let sl = s.subrange(0, nl);
            let sr = s.subrange(nl, nl + nr);
            let sc = s.subrange(nl + nr, s.len() as int);
            l.lemma_emitted_inside(sl);
            r.lemma_emitted_inside(sr);
            l.lemma_rep_room_inside();
            r.lemma_rep_room_inside();
            let a = l.rep_room().unwrap();
            let b = r.rep_room().unwrap();
            let (x1, y1, x2, y2, hf) = choose|x1: int, y1: int, x2: int, y2: int, hf: bool|
                a.contains_cell(x1, y1) && b.contains_cell(x2, y2) && sc == #[trigger] l_path(
                    x1,
                    y1,
                    x2,
                    y2,
                    hf,
                );
            lemma_path_inside(
                x1,
                y1,
                x2,
                y2,
                hf,
                self.x as int,
                self.y as int,
                self.width as int,
                self.height as int,
            );
            assert forall|i: int| 0 <= i < s.len() implies usable(#[trigger] s[i]) && s[i].within(
                self.x as int,
                self.y as int,
                self.width as int,
                self.height as int,
            ) by {
                if i < nl {
                    assert(s[i] == sl[i]);
                } else if i < nl + nr {
                    assert(s[i] == sr[i - nl]);
                } else {
                    assert(s[i] == sc[i - nl - nr]);
                }
            }
        }
    }
}

/// The partition-tree generator: builds a level by splitting the board,
/// placing a room in each leaf, joining siblings with corridors, and stamping
/// everything into the grid.
pub struct BspLevel {
    pub level: Level,
}

/// The minimum size of a region that the generator's tree keeps on each side of a cut.
pub const MIN_LEAF_SIZE: i32 = 8;

impl BspLevel {
    /// Whether `s` is exactly what the room pass emits for some fully split
    /// tree over a `width × height` board whose leaves all hold rooms.
    pub open spec fn board_emits(width: int, height: int, s: Seq<Room>) -> bool {
        exists|t: Leaf|
            {
                &&& t.same_region(Leaf::blank(0, 0, width, height, MIN_LEAF_SIZE as int))
                &&& t.wf()
                &&& t.settled()
                &&& t.placed()
                &&& #[trigger] t.emits(s)
            }
    }

    /// Whether `level` is what the generator makes on a board of its size:
    /// the stamped rectangles are exactly what the room pass emits for some
    /// fully split tree over the board.
    pub open spec fn generated(level: Level) -> bool {
        Self::board_emits(level.width as int, level.height as int, level.rooms@)
    }

    /// Generates a level on a `width × height` board from the random stream.
    pub fn new(width: i32, height: i32, hash: &String, rng: &mut StdRng) -> (r: Level)
        requires
            5 <= width,
            4 <= height,
        ensures
            r.shaped(),
            r.width == width,
            r.height == height,
            r.tile_size == 16,
            r.hash@ == hash@,
            r.stamped_exactly(),
            r.rooms@.len() >= 1,
            forall|i: int| 0 <= i < r.rooms@.len() ==> r.fits(#[trigger] r.rooms@[i]),
            Self::generated(r),
            forall|k: int|
                0 <= k < r.rooms@.len() ==> is_leaf_room(#[trigger] r.rooms@[k]) || pair_joins_rooms(
                    r.rooms@,
                    k,
                ) || pair_joins_rooms(r.rooms@, k - 1),
    {
        let level = Level::new(width, height, hash);
        let mut map = BspLevel { level };
        map.place_rooms(rng);
        proof {
            assert(map.level.rooms@.subrange(0, map.level.rooms@.len() as int) =~= map.level.rooms@);
            lemma_generated_layout(map.level);
        }
        map.level
    }

    /// Builds a tree over the whole board, runs the room pass on it, and
    /// stamps everything the pass emits after the rooms the level already holds.
    fn place_rooms(&mut self, rng: &mut StdRng)
        requires
            old(self).level.shaped(),
            5 <= old(self).level.width,
            4 <= old(self).level.height,
        ensures
            final(self).level.shaped(),
            final(self).level.width == old(self).level.width,
            final(self).level.height == old(self).level.height,
            final(self).level.tile_size == old(self).level.tile_size,
            final(self).level.hash@ == old(self).level.hash@,
            old(self).level.stamped_exactly() ==> final(self).level.stamped_exactly(),
            final(self).level.rooms@.len() > old(self).level.rooms@.len(),
            final(self).level.rooms@.subrange(0, old(self).level.rooms@.len() as int) == old(
                self,
            ).level.rooms@,
            forall|i: int|
                old(self).level.rooms@.len() <= i < final(self).level.rooms@.len()
                    ==> final(self).level.fits(#[trigger] final(self).level.rooms@[i]),
            Self::board_emits(
                old(self).level.width as int,
                old(self).level.height as int,
                final(self).level.rooms@.subrange(
                    old(self).level.rooms@.len() as int,
                    final(self).level.rooms@.len() as int,
                ),
            ),
    {
        let mut root = Leaf::new(0, 0, self.level.width, self.level.height, MIN_LEAF_SIZE);
        root.generate(rng);
        proof {
            root.lemma_sizes_weaken(
                min(self.level.width as int, MIN_LEAF_SIZE as int),
                min(self.level.height as int, MIN_LEAF_SIZE as int),
                5,
                4,
            );
        }
        let mut rooms: Vec<Room> = Vec::new();
        root.create_rooms(rng, &mut rooms);
        proof {
            assert(rooms@.subrange(0, rooms@.len() as int) =~= rooms@);
            root.lemma_emitted_inside(rooms@);
        }
        let ghost start = self.level;
        let ghost n0 = start.rooms@.len() as int;
        let mut i: usize = 0;
        while i < rooms.len()
            invariant
                0 <= i <= rooms@.len(),
                n0 == start.rooms@.len(),
                self.level.shaped(),
                self.level.width == start.width,
                self.level.height == start.height,
                self.level.tile_size == start.tile_size,
                self.level.hash@ == start.hash@,
                start.stamped_exactly() ==> self.level.stamped_exactly(),
                self.level.rooms@ == start.rooms@ + rooms@.subrange(0, i as int),
                forall|k: int|
                    0 <= k < rooms@.len() ==> usable(#[trigger] rooms@[k]) && rooms@[k].within(
                        0,
                        0,
                        start.width as int,
                        start.height as int,
                    ),
            decreases rooms@.len() - i,
        {
            assert(usable(rooms@[i as int]));
            self.level.add_room(&rooms[i]);
            i = i + 1;
            assert(self.level.rooms@ =~= start.rooms@ + rooms@.subrange(0, i as int));
        }
        proof {
            let fin = self.level.rooms@;
            assert(fin =~= start.rooms@ + rooms@);
            assert(fin.subrange(0, n0) =~= start.rooms@);
            assert(fin.subrange(n0, fin.len() as int) =~= rooms@);
            assert(root.emits(rooms@));
            assert forall|i: int| n0 <= i < fin.len() implies self.level.fits(#[trigger] fin[i]) by {
                assert(fin[i] == rooms@[i - n0]);
            }
        }
    }
}

impl Leaf {
    /// Whether the cell in column `c` and row `r` lies in the region.
    pub open spec fn covers(self, c: int, r: int) -> bool {
        self.x <= c < self.x + self.width && self.y <= r < self.y + self.height
    }

    pub open spec fn area(self) -> int {
        self.width * self.height
    }

    /// The two children of a split node partition its region: their areas add
    /// up to the parent's, every cell of the parent lies in exactly one child,
    /// and no child cell lies outside the parent.
    pub proof fn lemma_split_partitions(self)
        requires
            self.wf(),
            !self.is_leaf_spec(),
        ensures
            ({
                let l = *self.left_child.unwrap();
                let r = *self.right_child.unwrap();
                &&& l.area() + r.area() == self.area()
                &&& forall|c: int, w: int|
                    #[trigger] self.covers(c, w) <==> (l.covers(c, w) || r.covers(c, w))
                &&& forall|c: int, w: int| !(#[trigger] l.covers(c, w) && r.covers(c, w))
            }),
    {
        let l = *self.left_child.unwrap();
        let r = *self.right_child.unwrap();
        assert(self.split_into(l, r) && l.wf() && r.wf());
        assert(l.region_ok() && r.region_ok());
        if l.width == self.width && r.width == self.width && l.height + r.height == self.height {
            assert(l.width * l.height + r.width * r.height == self.width * self.height)
                by (nonlinear_arith)
                requires
                    l.width == self.width,
                    r.width == self.width,
                    l.height + r.height == self.height,
            ;
        } else {
            assert(l.width * l.height + r.width * r.height == self.width * self.height)
                by (nonlinear_arith)
                requires
                    l.height == self.height,
                    r.height == self.height,
                    l.width + r.width == self.width,
            ;
        }
        assert(l.area() + r.area() == self.area());
        assert forall|c: int, w: int| #[trigger] self.covers(c, w) <==> (l.covers(c, w) || r.covers(c, w)) by {}
        assert forall|c: int, w: int| !(#[trigger] l.covers(c, w) && r.covers(c, w)) by {}
    }
}

/// The two legs of an L-shaped route form a connected path: the first leg
/// holds the start cell, the second holds the end cell, and both hold the
/// corner cell where they meet.
pub proof fn lemma_route_connects(x1: int, y1: int, x2: int, y2: int, horizontal_first: bool)
    requires
        0 <= x1 < i32::MAX,
        0 <= y1 < i32::MAX,
        0 <= x2 < i32::MAX,
        0 <= y2 < i32::MAX,
    ensures
        ({
            let p = l_path(x1, y1, x2, y2, horizontal_first);
            let (cx, cy) = if horizontal_first {
                (x2, y1)
            } else {
                (x1, y2)
            };
            &&& p[0].contains_cell(x1, y1)
            &&& p[0].contains_cell(cx, cy)
            &&& p[1].contains_cell(cx, cy)
            &&& p[1].contains_cell(x2, y2)
        }),
{
}

/// Every corridor pair that the room pass emits joins a cell of one
/// representative room to a cell of the other, through the corner where its
/// two legs meet.
pub proof fn lemma_joined_rooms_connected(a: Room, b: Room, c: Seq<Room>)
    requires
        usable(a),
        usable(b),
        joins(a, b, c),
    ensures
        exists|x1: int, y1: int, x2: int, y2: int, cx: int, cy: int|
            {
                &&& a.contains_cell(x1, y1)
                &&& b.contains_cell(x2, y2)
                &&& #[trigger] c[0].contains_cell(x1, y1)
                &&& #[trigger] c[0].contains_cell(cx, cy)
                &&& c[1].contains_cell(cx, cy)
                &&& #[trigger] c[1].contains_cell(x2, y2)
            },
{
    let (x1, y1, x2, y2, hf) = choose|x1: int, y1: int, x2: int, y2: int, hf: bool|
        a.contains_cell(x1, y1) && b.contains_cell(x2, y2) && c == #[trigger] l_path(
            x1,
            y1,
            x2,
            y2,
            hf,
        );
    lemma_route_connects(x1, y1, x2, y2, hf);
    let (cx, cy) = if hf {
        (x2, y1)
    } else {
        (x1, y2)
    };
    assert(c[0].contains_cell(x1, y1) && c[1].contains_cell(x2, y2));
    assert(c[0].contains_cell(cx, cy) && c[1].contains_cell(cx, cy));
}

/// A room as leaves hold them: at least 4 wide and 3 tall (corridors are one
/// tile thin).
pub open spec fn is_leaf_room(r: Room) -> bool {
    4 <= r.width && 3 <= r.height
}

/// `s[i]` and `s[i + 1]` are an L-shaped corridor pair joining two leaf rooms
/// of `s`.
pub open spec fn pair_joins_rooms(s: Seq<Room>, i: int) -> bool {
    &&& 0 <= i
    &&& i + 2 <= s.len()
    &&& exists|a: int, b: int|
        0 <= a < s.len() && 0 <= b < s.len() && is_leaf_room(s[a]) && is_leaf_room(s[b])
            && #[trigger] joins(s[a], s[b], s.subrange(i, i + 2))
}

/// A corridor pair found in a stretch of a list is one of the whole list.
proof fn lemma_pair_shift(small: Seq<Room>, big: Seq<Room>, off: int, i: int)
    requires
        0 <= off,
        off + small.len() <= big.len(),
        small == big.subrange(off, off + small.len()),
        pair_joins_rooms(small, i),
    ensures
        pair_joins_rooms(big, i + off),
{
    let (a, b) = choose|a: int, b: int|
        0 <= a < small.len() && 0 <= b < small.len() && is_leaf_room(small[a]) && is_leaf_room(
            small[b],
        ) && #[trigger] joins(small[a], small[b], small.subrange(i, i + 2));
    assert(big[a + off] == small[a]);
    assert(big[b + off] == small[b]);
    assert(big.subrange(i + off, i + off + 2) =~= small.subrange(i, i + 2));
    assert(joins(big[a + off], big[b + off], big.subrange(i + off, i + off + 2)));
}

impl Leaf {
    /// The representative room of a tree whose leaves all hold rooms is one
    /// of the rooms the room pass emits for it.
    pub proof fn lemma_rep_room_emitted(self, s: Seq<Room>)
        requires
            self.wf(),
            self.placed(),
            self.emits(s),
        ensures
            exists|i: int| 0 <= i < s.len() && #[trigger] s[i] == self.rep_room().unwrap(),
        decreases self,
    {
        if self.is_leaf_spec() {
            assert(s[0] == self.rep_room().unwrap());
        } else {
            let l = *self.left_child.unwrap();
            let nl = l.emitted_len() as int;
            let sl = s.subrange(0, nl);
            l.lemma_rep_room_emitted(sl);
            l.lemma_rep_room_inside();
            let i = choose|i: int| 0 <= i < sl.len() && #[trigger] sl[i] == l.rep_room().unwrap();
            assert(s[i] == sl[i]);
        }
    }

    /// Everything the room pass emits is a leaf room or one leg of an adjacent
    /// corridor pair that joins two leaf rooms of the same list.
    pub proof fn lemma_emitted_layout(self, s: Seq<Room>)
        requires
            self.wf(),
            self.placed(),
            self.emits(s),
        ensures
            forall|k: int|
                0 <= k < s.len() ==> is_leaf_room(#[trigger] s[k]) || pair_joins_rooms(s, k)
                    || pair_joins_rooms(s, k - 1),
        decreases self,
    {
        if self.is_leaf_spec() {
            assert(s[0] == self.room.unwrap());
        } else {
            let l = *self.left_child.unwrap();
            let r = *self.right_child.unwrap();
            let nl = l.emitted_len() as int;
            let nr = r.emitted_len() as int;
            let sl = s.subrange(0, nl);
            let sr = s.subrange(nl, nl + nr);
            l.lemma_emitted_layout(sl);
            r.lemma_emitted_layout(sr);
            l.lemma_rep_room_inside();
            r.lemma_rep_room_inside();
            l.lemma_rep_room_emitted(sl);
            r.lemma_rep_room_emitted(sr);
            let ia = choose|i: int| 0 <= i < sl.len() && #[trigger] sl[i] == l.rep_room().unwrap();
            let ib = choose|i: int| 0 <= i < sr.len() && #[trigger] sr[i] == r.rep_room().unwrap();
            assert(s[ia] == sl[ia]);
            assert(s[nl + ib] == sr[ib]);
            assert(joins(s[ia], s[nl + ib], s.subrange(nl + nr, nl + nr + 2)));
            assert(pair_joins_rooms(s, nl + nr));
            assert forall|k: int|
                0 <= k < s.len() implies is_leaf_room(#[trigger] s[k]) || pair_joins_rooms(s, k)
                    || pair_joins_rooms(s, k - 1) by {
                if k < nl {
                    assert(s[k] == sl[k]);
                    if !is_leaf_room(sl[k]) {
                        if pair_joins_rooms(sl, k) {
                            lemma_pair_shift(sl, s, 0, k);
                        } else {
                            lemma_pair_shift(sl, s, 0, k - 1);
                        }
                    }
                } else if k < nl + nr {
                    assert(s[k] == sr[k - nl]);
                    if !is_leaf_room(sr[k - nl]) {
                        if pair_joins_rooms(sr, k - nl) {
                            lemma_pair_shift(sr, s, nl, k - nl);
                        } else {
                            lemma_pair_shift(sr, s, nl, k - nl - 1);
                        }
                    }
                } else {
                    assert(k == nl + nr || k - 1 == nl + nr);
                }
            }
        }
    }
}

/// In a generated level every stamped rectangle is a leaf room or one leg of
/// an adjacent corridor pair joining two leaf rooms of the level.
pub proof fn lemma_generated_layout(level: Level)
    requires
        BspLevel::generated(level),
    ensures
        forall|k: int|
            0 <= k < level.rooms@.len() ==> is_leaf_room(#[trigger] level.rooms@[k])
                || pair_joins_rooms(level.rooms@, k) || pair_joins_rooms(level.rooms@, k - 1),
{
    let t = choose|t: Leaf|
        {
            &&& t.same_region(
                Leaf::blank(0, 0, level.width as int, level.height as int, MIN_LEAF_SIZE as int),
            )
            &&& t.wf()
            &&& t.settled()
            &&& t.placed()
            &&& #[trigger] t.emits(level.rooms@)
        };
    t.lemma_emitted_layout(level.rooms@);
}

} // verus!
