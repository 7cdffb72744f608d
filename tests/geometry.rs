use dungeon::bsp::{horz_corridor, plan_cut, route_corridors, vert_corridor};
use dungeon::level::{Level, Tile};
use dungeon::room::Room;

#[test]
fn room_new_derives_corners_and_centre() {
    let r = Room::new(2, 3, 5, 4);
    assert_eq!((r.x, r.y, r.width, r.height), (2, 3, 5, 4));
    assert_eq!((r.x2, r.y2), (7, 7));
    assert_eq!((r.centre.x, r.centre.y), (4, 5));
}

#[test]
fn room_centre_rounds_down_for_odd_sizes() {
    let r = Room::new(0, 0, 7, 3);
    assert_eq!((r.centre.x, r.centre.y), (3, 1));
}

#[test]
fn intersects_is_false_for_distant_rooms() {
    let a = Room::new(0, 0, 4, 4);
    let b = Room::new(10, 10, 4, 4);
    assert!(!a.intersects(&b));
    assert!(!b.intersects(&a));
}

#[test]
fn intersects_is_true_for_overlapping_rooms() {
    let a = Room::new(0, 0, 4, 4);
    let b = Room::new(3, 3, 4, 4);
    assert!(a.intersects(&b));
    assert!(b.intersects(&a));
}

#[test]
fn intersects_counts_touching_edges() {
    let a = Room::new(0, 0, 4, 4);
    let b = Room::new(4, 0, 2, 2);
    assert!(a.intersects(&b));
    let c = Room::new(5, 0, 2, 2);
    assert!(!a.intersects(&c));
}

#[test]
fn level_new_is_empty() {
    let level = Level::new(6, 3, &"seed".to_string());
    assert_eq!(level.width, 6);
    assert_eq!(level.height, 3);
    assert_eq!(level.tile_size, 16);
    assert_eq!(level.hash, "seed");
    assert_eq!(level.board.len(), 3);
    for row in &level.board {
        assert_eq!(row.len(), 6);
        assert!(row.iter().all(|t| *t == Tile::Empty));
    }
    assert!(level.rooms.is_empty());
}

#[test]
fn add_room_stamps_exactly_its_rectangle() {
    let mut level = Level::new(6, 5, &"s".to_string());
    let room = Room::new(1, 2, 3, 2);
    level.add_room(&room);
    for r in 0..5 {
        for c in 0..6 {
            let inside = (1..4).contains(&c) && (2..4).contains(&r);
            let expected = if inside { Tile::Walkable } else { Tile::Empty };
            assert_eq!(level.board[r][c], expected, "cell ({}, {})", r, c);
        }
    }
    assert_eq!(level.rooms, vec![room]);
}

#[test]
fn add_room_overlapping_rooms_keeps_union() {
    let mut level = Level::new(5, 5, &"s".to_string());
    level.add_room(&Room::new(0, 0, 3, 3));
    level.add_room(&Room::new(2, 2, 3, 3));
    let walkable: usize = level
        .board
        .iter()
        .map(|row| row.iter().filter(|t| **t == Tile::Walkable).count())
        .sum();
    assert_eq!(walkable, 9 + 9 - 1);
    assert_eq!(level.rooms.len(), 2);
}

#[test]
fn tile_code_and_symbol() {
    assert_eq!(Tile::Empty.code(), 0);
    assert_eq!(Tile::Walkable.code(), 1);
    assert_eq!(Tile::Empty.symbol(), ' ');
    assert_eq!(Tile::Walkable.symbol(), '1');
}

#[test]
fn horz_corridor_spans_inclusive_columns() {
    let c = horz_corridor(2, 5, 9);
    assert_eq!((c.x, c.y, c.width, c.height), (2, 5, 8, 1));
    let single = horz_corridor(4, 4, 4);
    assert_eq!((single.width, single.height), (1, 1));
}

#[test]
fn vert_corridor_spans_inclusive_rows() {
    let c = vert_corridor(3, 1, 6);
    assert_eq!((c.x, c.y, c.width, c.height), (3, 1, 1, 6));
    let single = vert_corridor(3, 7, 7);
    assert_eq!((single.width, single.height), (1, 1));
}

#[test]
fn route_horizontal_first() {
    let mut out = vec![Room::new(0, 0, 1, 1)];
    route_corridors(8, 2, 3, 6, true, &mut out);
    assert_eq!(out.len(), 3);
    assert_eq!(out[1], Room::new(3, 2, 6, 1));
    assert_eq!(out[2], Room::new(3, 2, 1, 5));
}

#[test]
fn route_vertical_first() {
    let mut out = Vec::new();
    route_corridors(8, 6, 3, 2, false, &mut out);
    assert_eq!(out, vec![Room::new(8, 2, 1, 5), Room::new(3, 2, 6, 1)]);
}

#[test]
fn choose_seed_hashes_text() {
    let s = dungeon::seed::choose_seed(None, Some("abc"), "ignored").unwrap();
    assert_eq!(s, "ba7816bf8f01cfea414140de5dae2223b00361a396177a9cb410ff61f20015ad");
}

#[test]
fn choose_seed_hashes_fallback_without_text() {
    let a = dungeon::seed::choose_seed(None, None, "abc").unwrap();
    assert_eq!(a, "ba7816bf8f01cfea414140de5dae2223b00361a396177a9cb410ff61f20015ad");
}

#[test]
fn choose_seed_keeps_long_seed_and_refuses_short() {
    let long = "0123456789abcdef0123456789abcdefXYZ";
    assert_eq!(dungeon::seed::choose_seed(Some(long), Some("abc"), "").unwrap(), long);
    assert_eq!(dungeon::seed::choose_seed(Some("short"), None, ""), None);
    let exactly = "é123456789abcdef0123456789abcdef";
    assert_eq!(exactly.chars().count(), 32);
    assert!(dungeon::seed::choose_seed(Some(exactly), None, "").is_some());
}

#[test]
fn room_centre_rounds_down_for_negative_sizes() {
    let r = Room::new(10, 10, -3, -1);
    assert_eq!((r.x2, r.y2), (7, 9));
    assert_eq!((r.centre.x, r.centre.y), (8, 9));
}

#[test]
fn corridors_accept_negative_starts() {
    let h = horz_corridor(-3, 2, 1);
    assert_eq!((h.x, h.y, h.width, h.height), (-3, 2, 5, 1));
    let v = vert_corridor(4, -2, 0);
    assert_eq!((v.x, v.y, v.width, v.height), (4, -2, 1, 3));
}

#[test]
fn route_with_negative_cells() {
    let mut out = Vec::new();
    route_corridors(-2, -1, 1, 3, true, &mut out);
    assert_eq!(out, vec![Room::new(-2, -1, 4, 1), Room::new(1, -1, 1, 5)]);
}

#[test]
fn plan_cut_follows_bit_for_square_regions() {
    assert_eq!(plan_cut(20, 20, 8, true), Some((true, 12)));
    assert_eq!(plan_cut(20, 18, 8, false), Some((false, 12)));
    assert_eq!(plan_cut(18, 16, 8, true), None);
    assert_eq!(plan_cut(18, 16, 8, false), Some((false, 10)));
    assert_eq!(plan_cut(16, 18, 8, false), None);
    assert_eq!(plan_cut(16, 18, 8, true), Some((true, 10)));
    assert_eq!(plan_cut(20, 16, 8, true), Some((false, 12)));
    assert_eq!(plan_cut(16, 16, 8, true), None);
    assert_eq!(plan_cut(16, 16, 8, false), None);
}

#[test]
fn plan_cut_overrides_bit_for_long_regions() {
    assert_eq!(plan_cut(25, 20, 8, true), Some((false, 17)));
    assert_eq!(plan_cut(20, 25, 8, false), Some((true, 17)));
    assert_eq!(plan_cut(24, 20, 8, true), Some((true, 12)));
    assert_eq!(plan_cut(30, 10, 8, true), Some((false, 22)));
    assert_eq!(plan_cut(16, 5, 8, true), None);
}

#[test]
fn render_writes_one_line_per_row() {
    let mut level = Level::new(3, 2, &"s".to_string());
    level.add_room(&Room::new(1, 0, 2, 1));
    assert_eq!(level.render(), "  1 1 \n      \n");
}
