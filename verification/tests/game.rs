use mahjong::action::{Choice, Claim};
use mahjong::game::{
    discard_from_hand, discard_step, do_choice, draw_step, init_table, meld_step, replace_step,
    ActionError, Finish, Phase, Step, Sticks,
};
use mahjong::meld::Meld;
use mahjong::table::{Rivers, Table, Wind};
use mahjong::tile::{Figure, Group, Shape, Tile};

#[test]
fn sticks_payment_moves_points() {
    let mut sticks = Sticks::new();
    assert!(!sticks.is_bursted());
    sticks.payment(0, 2, 8000);
    assert_eq!(sticks.score[0], 17000);
    assert_eq!(sticks.score[1], 25000);
    assert_eq!(sticks.score[2], 33000);
    assert_eq!(sticks.score[3], 25000);
}

#[test]
fn finish_classification() {
    assert!(Finish::ExhaustiveDraw.is_goulash_hand());
    assert!(Finish::FourKongAbort.is_goulash_hand());
    assert!(!Finish::WinByDiscard(Wind::south()).is_goulash_hand());
    assert!(Finish::WinByDraw(Wind::east(), Tile::from_id(0)).is_dealer_win());
    assert!(!Finish::WinByDiscard(Wind::west()).is_dealer_win());
    assert!(Finish::WinByDiscard(Wind::east()).has_bonus_hand());
    assert!(Finish::NineTerminalAbort.has_bonus_hand());
    assert!(!Finish::WinByDraw(Wind::north(), Tile::from_id(9)).has_bonus_hand());
}

#[test]
fn phase_starts_with_dealer_draw() {
    assert_eq!(Phase::new(), Phase::Draw { wind: Wind::east() });
    assert_eq!(Step::phase(Phase::new()), Step::Phase(Phase::new()));
    assert_eq!(
        Step::finish(Finish::ExhaustiveDraw),
        Step::Finish(Finish::ExhaustiveDraw)
    );
}

#[test]
fn init_table_deals_thirteen_each() {
    let mut table = Table::new();
    let dice = init_table(&mut table);
    assert!(dice.raw() < 36);
    for s in 0..4 {
        assert_eq!(table.lands.tiles[s].count(), 13);
    }
    assert_eq!(table.wall.len(), 84);
    assert_eq!(table.rivers.len(), 0);
}

#[test]
fn draw_step_produces_choice_phase() {
    let mut table = Table::new();
    init_table(&mut table);
    let step = draw_step(&mut table, Wind::east());
    match step {
        Step::Phase(Phase::Choose { wind, drawn }) => {
            assert_eq!(wind, Wind::east());
            assert!(drawn.id() < 136);
        },
        other => panic!("unexpected step {:?}", other),
    }
    assert_eq!(table.wall.len(), 83);
}

#[test]
fn wall_exhaustion_finishes_hand() {
    // Draining the wall through the phase machine: every draw yields a
    // Choose phase until the dead wall alone remains, then the machine
    // reports an exhaustive draw and never panics.
    let mut table = Table::new();
    table.break_tiles(0);
    let mut successful = 0;
    loop {
        let step = draw_step(&mut table, Wind::east());
        match step {
            Step::Phase(Phase::Choose { .. }) => {
                successful += 1;
                assert!(successful <= 122);
            },
            Step::Finish(f) => {
                assert_eq!(f, Finish::ExhaustiveDraw);
                break;
            },
            other => panic!("unexpected step {:?}", other),
        }
    }
    assert_eq!(successful, 122);
    assert_eq!(table.wall.len(), 14);
    // Replacement draws fail the same way.
    assert_eq!(
        replace_step(&mut table, Wind::east(), false),
        Step::Finish(Finish::ExhaustiveDraw)
    );
}

#[test]
fn do_choice_plain_discard() {
    let mut table = Table::new();
    table.break_tiles(0);
    let drawn = Tile::from_id(60);
    let step = do_choice(&mut table, Wind::east(), Choice::DrawAndDiscard { riichi: false }, drawn)
        .expect("a plain discard always works");
    assert_eq!(step, Step::Phase(Phase::Ask { kong: false }));
    assert_eq!(table.rivers.len(), 1);
    let top = table.rivers.top().unwrap();
    assert_eq!(top.tile(), drawn);
    assert_eq!(top.discarded_by(), Wind::east());
}

#[test]
fn do_choice_named_discard_swaps_hand() {
    let mut table = Table::new();
    table.break_tiles(0);
    let mut h = table.lands.tiles[0].clone();
    h.add(Tile::from_id(20));
    table.lands.tiles[0] = h;
    let drawn = Tile::from_id(60);
    let step = do_choice(
        &mut table,
        Wind::east(),
        Choice::Discard { figure: Figure::from_id(5), riichi: false },
        drawn,
    )
    .expect("the named figure is in hand");
    assert_eq!(step, Step::Phase(Phase::Ask { kong: false }));
    assert_eq!(table.rivers.top().unwrap().tile().figure(), Figure::from_id(5));
    assert!(table.lands.tiles[0].has(drawn));
    assert_eq!(table.lands.tiles[0].count(), 1);
}

#[test]
fn do_choice_rejects_missing_tile() {
    let mut table = Table::new();
    table.break_tiles(0);
    let got = do_choice(
        &mut table,
        Wind::east(),
        Choice::Discard { figure: Figure::from_id(5), riichi: false },
        Tile::from_id(60),
    );
    assert_eq!(got, Err(ActionError::NotInHand));
    assert_eq!(table.rivers.len(), 0);
}

#[test]
fn do_choice_concealed_kong() {
    let mut table = Table::new();
    table.break_tiles(0);
    let mut h = table.lands.tiles[0].clone();
    h.add(Tile::from_id(28));
    h.add(Tile::from_id(29));
    h.add(Tile::from_id(30));
    table.lands.tiles[0] = h;
    let drawn = Tile::from_id(31);
    let step = do_choice(&mut table, Wind::east(), Choice::Kong(Figure::from_id(7)), drawn)
        .expect("all four copies are at hand");
    assert_eq!(step, Step::Phase(Phase::Replace { wind: Wind::east(), expose: false }));
    assert_eq!(table.lands.tiles[0].count(), 0);
    assert_eq!(table.lands.melds.len(), 1);
    let meld = table.lands.melds.top();
    assert_eq!(meld.set().shape(), Shape::kong());
    assert_eq!(meld.set().figure(), Figure::from_id(7));
    assert_eq!(meld.wind(&table.rivers), Some(Wind::east()));
}

#[test]
fn do_choice_kong_without_tiles_fails() {
    let mut table = Table::new();
    table.break_tiles(0);
    let got = do_choice(&mut table, Wind::east(), Choice::Kong(Figure::from_id(7)),
        Tile::from_id(31));
    assert_eq!(got, Err(ActionError::CannotKong));
    assert_eq!(table.rivers.len(), 0);
    assert_eq!(table.lands.melds.len(), 0);
}

#[test]
fn do_choice_win_and_abort() {
    let mut table = Table::new();
    let drawn = Tile::from_id(11);
    assert_eq!(
        do_choice(&mut table, Wind::south(), Choice::Mahjong, drawn),
        Ok(Step::Finish(Finish::WinByDraw(Wind::south(), drawn)))
    );
    assert_eq!(
        do_choice(&mut table, Wind::south(), Choice::NineTerminals, drawn),
        Ok(Step::Finish(Finish::NineTerminalAbort))
    );
}

#[test]
fn meld_step_pung_claims_discard() {
    let mut table = Table::new();
    // South discards figure 9; West holds two more copies and claims it.
    table.rivers.add(Wind::south(), Tile::from_id(36));
    let mut h = table.lands.tiles[2].clone();
    h.add(Tile::from_id(37));
    h.add(Tile::from_id(38));
    table.lands.tiles[2] = h;
    let step = meld_step(&mut table, Wind::west(), Claim::pung())
        .expect("two matching copies are in hand");
    assert_eq!(step, Step::Phase(Phase::Discard { wind: Wind::west() }));
    assert_eq!(table.lands.tiles[2].count(), 0);
    assert_eq!(table.lands.melds.len(), 1);
    let meld = table.lands.melds.top();
    assert_eq!(meld.set().shape(), Shape::pung());
    assert_eq!(meld.set().figure(), Figure::from_id(9));
    assert_eq!(meld.robbed_from(), 0);
    assert_eq!(meld.wind(&table.rivers), Some(Wind::west()));
    // The claimer then discards with no draw.
    assert_eq!(discard_step(&mut table, Wind::west()),
        Step::Phase(Phase::Ask { kong: false }));
}

#[test]
fn meld_step_chow_picks_run() {
    let mut table = Table::new();
    // East discards the 5 of characters; South holds the 6 and 7.
    table.rivers.add(Wind::east(), Tile::from_id(16));
    let mut h = table.lands.tiles[1].clone();
    h.add(Tile::from_id(20));
    h.add(Tile::from_id(24));
    table.lands.tiles[1] = h;
    let step = meld_step(&mut table, Wind::south(), Claim::chow())
        .expect("the run continues in hand");
    assert_eq!(step, Step::Phase(Phase::Discard { wind: Wind::south() }));
    let meld = table.lands.melds.top();
    assert_eq!(meld.set().shape(), Shape::chow());
    assert_eq!(meld.set().figure(), Figure::from_id(4));
}

#[test]
fn meld_step_without_discard_fails() {
    let mut table = Table::new();
    let got = meld_step(&mut table, Wind::west(), Claim::pung());
    assert_eq!(got, Err(ActionError::CannotMeld));
}

#[test]
fn discard_after_meld_records_tile() {
    let mut table = Table::new();
    let mut h = table.lands.tiles[1].clone();
    h.add(Tile::from_id(52));
    table.lands.tiles[1] = h;
    // The named figure is missing: nothing changes and the seat is told.
    assert_eq!(
        discard_from_hand(&mut table, Wind::south(), Figure::from_id(20)),
        Err(ActionError::NotInHand)
    );
    assert_eq!(table.rivers.len(), 0);
    // The held figure goes to the pile and claims open.
    let step = discard_from_hand(&mut table, Wind::south(), Figure::from_id(13))
        .expect("the figure is in hand");
    assert_eq!(step, Step::Phase(Phase::Ask { kong: false }));
    assert_eq!(table.lands.tiles[1].count(), 0);
    let top = table.rivers.top().unwrap();
    assert_eq!(top.tile().figure(), Figure::from_id(13));
    assert_eq!(top.discarded_by(), Wind::south());
}

#[test]
fn init_table_breaks_at_dice_offset() {
    let mut table = Table::new();
    let dice = init_table(&mut table);
    assert_eq!(table.wall.ridge, dice.sum() * 32 % 136);
}

#[test]
fn meld_river_cross_reference() {
    // A meld built from a claimed discard names, through the pile, the seat
    // that robbed it; once the pile is cleared the reference dangles and
    // resolves to nothing.
    let mut rivers = Rivers::new();
    rivers.add(Wind::north(), Tile::from_id(99));
    let (tile, index) = rivers.rob(Wind::south()).expect("one discard stands");
    let meld = Meld::from_set_robinfo(
        Group::from_shape_figure(Shape::pung(), tile.figure()),
        index,
    );
    assert_eq!(meld.wind(&rivers), Some(Wind::south()));
    assert_eq!(rivers.get(index).unwrap().discarded_by(), Wind::north());
    rivers.clear();
    assert_eq!(meld.wind(&rivers), None);
}

#[test]
fn meld_addinfo_upgrade() {
    let mut meld = Meld::from_set_robinfo(
        Group::from_shape_figure(Shape::pung(), Figure::from_id(30)),
        12,
    );
    assert_eq!(meld.robbed_from(), 12);
    assert_eq!(meld.added_from(), 0);
    meld.set_addinfo(57);
    assert_eq!(meld.robbed_from(), 12);
    assert_eq!(meld.added_from(), 57);
    assert_eq!(meld.set().figure(), Figure::from_id(30));
}
