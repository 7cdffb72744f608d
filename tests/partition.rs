use dungeon::bsp::{create_corridors, BspLevel, Leaf};
use dungeon::level::Tile;
use dungeon::room::Room;
use dungeon::roomscorridors::RoomsCorridors;
use rand::rngs::StdRng;
use rand::SeedableRng;

fn leaves<'a>(node: &'a Leaf, out: &mut Vec<&'a Leaf>) {
    match (&node.left_child, &node.right_child) {
        (Some(l), Some(r)) => {
            leaves(l, out);
            leaves(r, out);
        }
        _ => out.push(node),
    }
}

fn check_partition(node: &Leaf) {
    if let (Some(l), Some(r)) = (&node.left_child, &node.right_child) {
        assert_eq!(
            l.width as i64 * l.height as i64 + r.width as i64 * r.height as i64,
            node.width as i64 * node.height as i64
        );
        let horizontal = l.width == node.width && r.width == node.width && r.y == node.y + l.height;
        let vertical = l.height == node.height && r.height == node.height && r.x == node.x + l.width;
        assert!(horizontal || vertical);
        assert_eq!((l.x, l.y), (node.x, node.y));
        check_partition(l);
        check_partition(r);
    }
}

fn leaf_with_room(room: Option<Room>) -> Leaf {
    let mut l = Leaf::new(0, 0, 10, 10, 8);
    l.room = room;
    l
}

#[test]
fn leaf_new_is_an_empty_leaf() {
    let l = Leaf::new(1, 2, 30, 20, 8);
    assert_eq!((l.x, l.y, l.width, l.height, l.min_size), (1, 2, 30, 20, 8));
    assert!(l.is_leaf());
    assert!(l.room.is_none());
    assert!(l.get_room().is_none());
}

#[test]
fn split_refuses_small_square_regions() {
    for seed in 0..20 {
        let mut rng = StdRng::seed_from_u64(seed);
        let mut l = Leaf::new(0, 0, 16, 16, 8);
        assert!(!l.split(&mut rng));
        assert!(l.is_leaf());
    }
}

#[test]
fn split_wide_region_always_cuts_vertically() {
    for seed in 0..20 {
        let mut rng = StdRng::seed_from_u64(seed);
        let mut l = Leaf::new(3, 4, 30, 10, 8);
        assert!(l.split(&mut rng));
        let a = l.left_child.as_ref().unwrap();
        let b = l.right_child.as_ref().unwrap();
        assert_eq!((a.height, b.height), (10, 10));
        assert_eq!(a.width + b.width, 30);
        assert!(a.width >= 8 && a.width < 22);
        assert_eq!(b.x, 3 + a.width);
    }
}

#[test]
fn split_tall_region_always_cuts_horizontally() {
    for seed in 0..20 {
        let mut rng = StdRng::seed_from_u64(seed);
        let mut l = Leaf::new(0, 0, 10, 30, 8);
        assert!(l.split(&mut rng));
        let a = l.left_child.as_ref().unwrap();
        let b = l.right_child.as_ref().unwrap();
        assert_eq!((a.width, b.width), (10, 10));
        assert_eq!(a.height + b.height, 30);
        assert_eq!(b.y, a.height);
    }
}

#[test]
fn split_wide_but_too_narrow_region_refuses() {
    let mut rng = StdRng::seed_from_u64(7);
    let mut l = Leaf::new(0, 0, 16, 5, 8);
    assert!(!l.split(&mut rng));
}

#[test]
fn generate_partitions_board_and_settles() {
    let mut rng = StdRng::seed_from_u64(11);
    let mut root = Leaf::new(0, 0, 48, 40, 8);
    root.generate(&mut rng);
    assert!(!root.is_leaf());
    check_partition(&root);
    let mut ls = Vec::new();
    leaves(&root, &mut ls);
    let total: i64 = ls.iter().map(|l| l.width as i64 * l.height as i64).sum();
    assert_eq!(total, 48 * 40);
    for l in ls {
        assert!(l.width >= 8 && l.height >= 8);
        assert!(l.width - 8 <= 8 || l.height - 8 <= 8);
    }
}

#[test]
fn create_rooms_places_room_inside_each_leaf() {
    let mut rng = StdRng::seed_from_u64(5);
    let mut root = Leaf::new(0, 0, 48, 40, 8);
    root.generate(&mut rng);
    let mut rooms = Vec::new();
    root.create_rooms(&mut rng, &mut rooms);
    let mut ls = Vec::new();
    leaves(&root, &mut ls);
    for l in &ls {
        let r = l.room.expect("every leaf has a room");
        assert!(r.x >= l.x && r.x2 < l.x + l.width);
        assert!(r.y >= l.y && r.y2 < l.y + l.height);
        assert!(r.width >= 4 && r.height >= 3);
        assert!(rooms.contains(&r));
    }
    assert_eq!(rooms.len(), ls.len() + 2 * (ls.len() - 1));
    assert!(root.get_room().is_some());
}

#[test]
fn get_room_prefers_left_subtree() {
    let a = Room::new(1, 1, 4, 3);
    let b = Room::new(5, 5, 4, 3);
    let mut parent = Leaf::new(0, 0, 20, 10, 8);
    parent.left_child = Some(Box::new(leaf_with_room(Some(a))));
    parent.right_child = Some(Box::new(leaf_with_room(Some(b))));
    assert_eq!(parent.get_room(), Some(a));
    parent.left_child = Some(Box::new(leaf_with_room(None)));
    assert_eq!(parent.get_room(), Some(b));
    parent.right_child = Some(Box::new(leaf_with_room(None)));
    assert_eq!(parent.get_room(), None);
}

#[test]
fn create_corridors_without_room_is_noop() {
    let mut rng = StdRng::seed_from_u64(1);
    let with_room = leaf_with_room(Some(Room::new(1, 1, 4, 3)));
    let empty = Leaf::new(10, 0, 10, 10, 8);
    let mut out = vec![Room::new(0, 0, 2, 2)];
    create_corridors(&mut rng, &with_room, &empty, &mut out);
    assert_eq!(out, vec![Room::new(0, 0, 2, 2)]);
    create_corridors(&mut rng, &empty, &with_room, &mut out);
    assert_eq!(out.len(), 1);
}

#[test]
fn create_corridors_joins_two_rooms() {
    let a = Room::new(1, 1, 4, 3);
    let b = Room::new(12, 20, 5, 4);
    let mut rng = StdRng::seed_from_u64(3);
    let mut out = Vec::new();
    create_corridors(&mut rng, &leaf_with_room(Some(a)), &leaf_with_room(Some(b)), &mut out);
    assert_eq!(out.len(), 2);
    let in_room = |r: &Room, x: i32, y: i32| r.x <= x && x < r.x2 && r.y <= y && y < r.y2;
    let corners = |c: &Room| vec![(c.x, c.y), (c.x2 - 1, c.y2 - 1)];
    for c in &out {
        assert!(c.width == 1 || c.height == 1);
        for (x, y) in corners(c) {
            let others: Vec<&Room> = out.iter().filter(|o| *o != c).collect();
            assert!(in_room(&a, x, y) || in_room(&b, x, y) || others.iter().any(|o| in_room(o, x, y)));
        }
    }
}

fn generate(seed: u64) -> dungeon::level::Level {
    let mut rng = StdRng::seed_from_u64(seed);
    BspLevel::new(48, 40, &"0123456789abcdef0123456789abcdef".to_string(), &mut rng)
}

#[test]
fn bsp_level_end_to_end() {
    let level = generate(42);
    assert_eq!((level.width, level.height), (48, 40));
    assert!(!level.rooms.is_empty());
    let covered = |r: usize, c: usize| {
        level.rooms.iter().any(|m| {
            m.x as usize <= c && c < m.x2 as usize && m.y as usize <= r && r < m.y2 as usize
        })
    };
    for r in 0..40 {
        for c in 0..48 {
            assert_eq!(level.board[r][c] == Tile::Walkable, covered(r, c));
        }
    }
    for (i, m) in level.rooms.iter().enumerate() {
        assert!(m.x >= 0 && m.y >= 0 && m.x2 <= 48 && m.y2 <= 40);
        if m.width == 1 || m.height == 1 {
            for (x, y) in [(m.x, m.y), (m.x2 - 1, m.y2 - 1)] {
                assert!(level.rooms.iter().enumerate().any(|(j, o)| {
                    j != i && o.x <= x && x < o.x2 && o.y <= y && y < o.y2
                }));
            }
        }
    }
}

#[test]
fn bsp_level_is_deterministic() {
    let a = generate(99);
    let b = generate(99);
    assert_eq!(a.rooms, b.rooms);
    assert_eq!(a.board, b.board);
}

#[test]
fn bsp_level_smallest_board() {
    let mut rng = StdRng::seed_from_u64(0);
    let level = BspLevel::new(5, 4, &"x".to_string(), &mut rng);
    assert_eq!(level.rooms.len(), 1);
    assert_eq!((level.rooms[0].width, level.rooms[0].height), (4, 3));
}

#[test]
fn rooms_corridors_scatter() {
    let mut rng = StdRng::seed_from_u64(8);
    let level = RoomsCorridors::new(48, 40, &"x".to_string(), &mut rng);
    assert!(!level.rooms.is_empty() && level.rooms.len() <= 10);
    for (i, a) in level.rooms.iter().enumerate() {
        assert!(a.x >= 0 && a.y >= 0 && a.x2 <= 48 && a.y2 <= 40);
        for b in &level.rooms[..i] {
            assert!(!a.intersects(b));
        }
    }
    for pair in level.rooms.windows(2) {
        let (a, b) = (pair[0].centre, pair[1].centre);
        for x in a.x.min(b.x)..=a.x.max(b.x) {
            assert_eq!(level.board[a.y as usize][x as usize], Tile::Walkable);
        }
        for y in a.y.min(b.y)..=a.y.max(b.y) {
            assert_eq!(level.board[y as usize][b.x as usize], Tile::Walkable);
        }
    }
}
