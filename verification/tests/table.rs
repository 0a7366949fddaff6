use mahjong::table::{DiscardedTile, Melds, Rivers, Table, Wall, Wind};
use mahjong::tile::Tile;

#[test]
fn wind_cycle() {
    let e = Wind::east();
    assert_eq!(e.rightside(), Wind::south());
    assert_eq!(e.frontside(), Wind::west());
    assert_eq!(e.leftside(), Wind::north());
    assert_eq!(Wind::north().rightside(), Wind::east());
    assert_eq!(Wind::from_id(7), Wind::north());
    let others = Wind::south().others();
    assert_eq!(others.len(), 3);
    assert_eq!(others[0], Wind::west());
    assert_eq!(others[1], Wind::north());
    assert_eq!(others[2], Wind::east());
}

#[test]
fn wind_show_glyphs() {
    assert_eq!(Wind::east().show(), "\u{6771}");
    assert_eq!(Wind::south().show(), "\u{5357}");
    assert_eq!(Wind::west().show(), "\u{897F}");
    assert_eq!(Wind::north().show(), "\u{5317}");
}

#[test]
fn discarded_tile_packs_fields() {
    let d = DiscardedTile::from_tile_wind(Tile::from_id(77), Wind::west());
    assert_eq!(d.tile(), Tile::from_id(77));
    assert_eq!(d.discarded_by(), Wind::west());
    assert!(!d.is_riichi_declaration());
    assert!(!d.is_robbed());
    assert_eq!(d.robbed_by(), None);

    let r = d.add_riichi_flag();
    assert!(r.is_riichi_declaration());
    assert_eq!(r.tile(), Tile::from_id(77));
    assert_eq!(r.discarded_by(), Wind::west());

    let m = r.add_robbed_mark(Wind::north());
    assert!(m.is_robbed());
    assert_eq!(m.robbed_by(), Some(Wind::north()));
    assert_eq!(m.tile(), Tile::from_id(77));
    assert!(m.is_riichi_declaration());
}

#[test]
fn rivers_append_and_rob() {
    let mut rivers = Rivers::new();
    assert_eq!(rivers.len(), 0);
    assert_eq!(rivers.top(), None);
    rivers.add(Wind::east(), Tile::from_id(3));
    rivers.add(Wind::south(), Tile::from_id(50));
    assert_eq!(rivers.len(), 2);
    let top = rivers.top().expect("two entries stand");
    assert_eq!(top.tile(), Tile::from_id(50));
    assert_eq!(top.discarded_by(), Wind::south());
    assert_eq!(rivers.get(0).map(|d| d.tile()), Some(Tile::from_id(3)));
    assert_eq!(rivers.get(2), None);

    let (tile, index) = rivers.rob(Wind::west()).expect("a discard to rob");
    assert_eq!(tile, Tile::from_id(50));
    assert_eq!(index, 1);
    assert_eq!(rivers.top().map(|d| d.robbed_by()), Some(Some(Wind::west())));

    rivers.clear();
    assert_eq!(rivers.len(), 0);
}

#[test]
fn wall_draw_order_and_dead_wall() {
    let mut wall = Wall::new();
    assert_eq!(wall.len(), 136);
    wall.make_break(0);
    let first_live = wall.next_back().expect("the wall is full");
    assert_eq!(first_live, Tile::from_id(135));
    let first_dead = wall.next().expect("the wall is full");
    assert_eq!(first_dead, Tile::from_id(0));
    assert_eq!(wall.len(), 134);
}

#[test]
fn wall_exhaustion_stops_at_dead_wall() {
    // Drawing until nothing remains: exactly 122 draws succeed, then
    // every further draw fails and the fourteen-tile reserve stands.
    let mut wall = Wall::new();
    wall.make_break(17);
    let mut draws = 0;
    while let Some(_t) = wall.next_back() {
        draws += 1;
        assert!(draws <= 136);
    }
    assert_eq!(draws, 122);
    assert_eq!(wall.len(), 14);
    assert_eq!(wall.next_back(), None);
    assert_eq!(wall.next(), None);
}

#[test]
fn wall_shuffle_keeps_permutation() {
    let mut wall = Wall::new();
    wall.shuffle();
    let mut seen = [false; 136];
    for i in 0..136 {
        let id = wall.tiles[i].id();
        assert!(!seen[id]);
        seen[id] = true;
    }
    assert!(seen.iter().all(|&b| b));
}

#[test]
fn melds_store_and_update() {
    let mut melds = Melds::new();
    assert_eq!(melds.len(), 0);
    let m = mahjong::meld::Meld::from_raw(0x1234);
    melds.add(m);
    assert_eq!(melds.len(), 1);
    assert_eq!(melds.top(), m);
    assert_eq!(melds.get(0), m);
    let m2 = mahjong::meld::Meld::from_raw(0x4321);
    melds.update(0, m2);
    assert_eq!(melds.top(), m2);
    melds.clear();
    assert_eq!(melds.len(), 0);
}

#[test]
fn table_break_positions_cursors() {
    let mut table = Table::new();
    table.break_tiles(7);
    // 7 * 32 mod 136 = 88.
    assert_eq!(table.wall.index, 88);
    assert_eq!(table.wall.ridge, 88);
    assert_eq!(table.wall.len(), 136);
}
