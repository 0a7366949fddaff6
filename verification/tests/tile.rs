use mahjong::tile::{
    Figure, Group, Rank, RankSpec, RankSpecs, Ranks, Shape, Suit, SuitRanks, SuitTiles, Suits,
    Tile, Tiles,
};

#[test]
fn suits_count_down() {
    let mut s = Suits::new();
    assert!(s.is_empty());
    assert_eq!(s.next(), None);
    let mut t = Suits(vec![0, 2, 0, 1]);
    assert_eq!(t.count(), 3);
    assert_eq!(t.next(), Some(Suit::bamboo()));
    assert_eq!(t.next(), Some(Suit::bamboo()));
    assert_eq!(t.next(), Some(Suit::hounor()));
    assert_eq!(t.next(), None);
}

#[test]
fn suittiles_singleton_tags_suit() {
    let st = SuitTiles::singleton(Tile::from_id(77));
    assert_eq!(st.suit(), Suit::circle());
    assert!(!st.is_empty());
    let raw = st.raw();
    assert_eq!(SuitTiles::from_raw(raw).raw(), raw);
    assert!(SuitTiles::new().is_empty());
}

#[test]
fn parse_test() {
    assert_eq!(
        Figure::parse("\u{1F01E}"),
        Some(Figure::from_suitrank(Suit::circle(), Rank::from_id(5)))
    );
}

#[test]
fn parse_round_trip_all_figures() {
    for v in Figure::mk_iter() {
        assert_eq!(Figure::parse(v.show()), Some(v));
    }
}

#[test]
fn parse_rejects_unknown_input() {
    assert_eq!(Figure::parse("x"), None);
    assert_eq!(Figure::parse(""), None);
    assert_eq!(Figure::parse("\u{1F007}\u{1F007}"), None);
}

#[test]
fn tile_figure_suit_rank() {
    let t = Tile::from_id(37);
    assert_eq!(t.id(), 37);
    assert_eq!(t.figure().id(), 9);
    assert_eq!(t.suit().id(), 1);
    assert_eq!(t.rank().id(), 0);
    assert_eq!(t.spec(), 1);
    assert_eq!(Tile::from_id(136).id(), 0);
}

#[test]
fn tile_from_suit_rankspec_round_trip() {
    for t in Tile::mk_iter() {
        let again = Tile::from_suit_rankspec(t.suit(), t.rankspec());
        assert_eq!(again, t);
    }
}

#[test]
fn figure_identifier_round_trip() {
    for f in Figure::mk_iter() {
        assert_eq!(Figure::from_suitrank(f.suit(), f.rank()), f);
        assert_eq!(Figure::from_id(f.id()), f);
    }
}

#[test]
fn group_packs_shape_and_figure() {
    let g = Group::from_shape_figure(Shape::kong(), Figure::from_id(17));
    assert_eq!(g.shape().id(), 2);
    assert_eq!(g.figure().id(), 17);
    let h = Group::from_raw(g.raw());
    assert_eq!(h, g);
}

#[test]
fn ranks_counts_and_total() {
    let mut r = Ranks::new();
    assert!(r.is_empty());
    r.add(Rank::from_id(4));
    r.add(Rank::from_id(4));
    r.add(Rank::from_id(7));
    assert_eq!(r.count(), 3);
    assert!(r.has(Rank::from_id(4)));
    assert!(r.has(Rank::from_id(7)));
    assert!(!r.has(Rank::from_id(0)));
    assert_eq!(r.next(), Some(Rank::from_id(4)));
    assert_eq!(r.count(), 2);
}

#[test]
fn kong_filter_singleton() {
    // Exactly four copies at one rank, fewer elsewhere: the filter marks
    // that rank alone.
    let mut r = Ranks::new();
    for _ in 0..4 {
        r.add(Rank::from_id(2));
    }
    r.add(Rank::from_id(5));
    r.add(Rank::from_id(5));
    r.add(Rank::from_id(5));
    let k = r.filter_kong();
    assert_eq!(k.count(), 1);
    assert!(k.has(Rank::from_id(2)));
    assert!(!k.has(Rank::from_id(5)));
}

#[test]
fn kong_filter_empty_without_quad() {
    let empty = Ranks::new();
    assert!(empty.filter_kong().is_empty());
    let mut r = Ranks::new();
    r.add(Rank::from_id(0));
    r.add(Rank::from_id(0));
    r.add(Rank::from_id(0));
    assert!(r.filter_kong().is_empty());
}

#[test]
fn chow_filter_marks_run_start_only() {
    // Ranks 1, 2, 3 (stored 0, 1, 2) one copy each: only the lowest starts
    // a run.
    let mut r = Ranks::new();
    r.add(Rank::from_id(0));
    r.add(Rank::from_id(1));
    r.add(Rank::from_id(2));
    let c = r.filter_chow();
    assert_eq!(c.count(), 1);
    assert!(c.has(Rank::from_id(0)));
    assert!(!c.has(Rank::from_id(1)));
    assert!(!c.has(Rank::from_id(2)));
}

#[test]
fn pattern_filters_on_mixed_hand() {
    let mut r = Ranks::new();
    r.add(Rank::from_id(0));
    r.add(Rank::from_id(0));
    r.add(Rank::from_id(0));
    r.add(Rank::from_id(3));
    r.add(Rank::from_id(3));
    r.add(Rank::from_id(8));
    assert!(r.filter_pung().has(Rank::from_id(0)));
    assert!(!r.filter_pung().has(Rank::from_id(3)));
    assert!(r.filter_pair().has(Rank::from_id(0)));
    assert!(r.filter_pair().has(Rank::from_id(3)));
    assert!(!r.filter_pair().has(Rank::from_id(8)));
    assert!(r.filter_one().has(Rank::from_id(8)));
    assert!(r.filter_chow().is_empty());
}

#[test]
fn partial_run_filters() {
    let mut r = Ranks::new();
    r.add(Rank::from_id(0));
    r.add(Rank::from_id(1));
    let p = r.filter_penryan();
    assert!(p.has(Rank::from_id(0)));
    assert!(r.filter_penchan().has(Rank::from_id(0)));
    assert!(r.filter_ryanmen().is_empty());

    let mut q = Ranks::new();
    q.add(Rank::from_id(3));
    q.add(Rank::from_id(5));
    assert!(q.filter_kanchan().has(Rank::from_id(3)));
    assert!(q.filter_penryan().is_empty());
    // A complete run has no gap: its middle rank is present, so the
    // closed-wait filter stays silent.
    q.add(Rank::from_id(4));
    assert!(q.filter_kanchan().is_empty());

    let mut open = Ranks::new();
    open.add(Rank::from_id(4));
    open.add(Rank::from_id(5));
    assert!(open.filter_ryanmen().has(Rank::from_id(4)));
    assert!(open.filter_penchan().is_empty());
}

#[test]
fn rankspecs_add_del_extract() {
    let mut rs = RankSpecs::new();
    assert!(rs.is_empty());
    rs.add(RankSpec::from_id(8));
    rs.add(RankSpec::from_id(9));
    rs.add(RankSpec::from_id(30));
    assert_eq!(rs.count(), 3);
    assert!(rs.has(RankSpec::from_id(8)));
    rs.del(RankSpec::from_id(8));
    assert!(!rs.has(RankSpec::from_id(8)));
    assert_eq!(rs.count(), 2);
    // Rank 2 occupies positions 8..12: position 9 is its remaining copy.
    let got = rs.extract(Rank::from_id(2));
    assert_eq!(got, Some(RankSpec::from_id(9)));
    assert_eq!(rs.extract(Rank::from_id(2)), None);
    assert_eq!(rs.next(), Some(RankSpec::from_id(30)));
    assert!(rs.is_empty());
}

#[test]
fn tiles_multiset_balance() {
    // Adding n distinct tiles and extracting m of them leaves n - m, and
    // every extract hands back a tile that was added.
    let mut h = Tiles::new();
    let added = [0usize, 1, 4, 5, 40, 135];
    for &id in added.iter() {
        h.add(Tile::from_id(id));
    }
    assert_eq!(h.count(), added.len());
    let mut extracted = 0;
    while let Some(t) = h.next() {
        assert!(added.contains(&t.id()));
        extracted += 1;
    }
    assert_eq!(extracted, added.len());
    assert!(h.is_empty());
}

#[test]
fn tiles_extract_figure_prefers_membership() {
    let mut h = Tiles::new();
    h.add(Tile::from_id(13));
    let got = h.extract_figure(Figure::from_id(3));
    let t = got.expect("figure is present");
    assert_eq!(t.figure().id(), 3);
    assert_eq!(h.count(), 0);
    assert_eq!(h.extract_figure(Figure::from_id(3)), None);
}

#[test]
fn tiles_extract_set_pung_and_failure() {
    let mut h = Tiles::new();
    h.add(Tile::from_id(8));
    h.add(Tile::from_id(9));
    h.add(Tile::from_id(10));
    let pung = Group::from_shape_figure(Shape::pung(), Figure::from_id(2));
    let got = h.extract_set(pung).expect("three copies are present");
    assert_eq!(got.len(), 3);
    assert!(h.is_empty());

    let mut short = Tiles::new();
    short.add(Tile::from_id(8));
    short.add(Tile::from_id(9));
    assert!(short.extract_set(pung).is_none());
    assert_eq!(short.count(), 2);
}

#[test]
fn tiles_extract_set_chow() {
    let mut h = Tiles::new();
    h.add(Tile::from_id(0));
    h.add(Tile::from_id(4));
    h.add(Tile::from_id(8));
    h.add(Tile::from_id(12));
    let chow = Group::from_shape_figure(Shape::chow(), Figure::from_id(0));
    let got = h.extract_set(chow).expect("run of three is present");
    assert_eq!(got.len(), 3);
    assert_eq!(got[0].figure().id(), 0);
    assert_eq!(got[1].figure().id(), 1);
    assert_eq!(got[2].figure().id(), 2);
    assert_eq!(h.count(), 1);

    let honor_chow = Group::from_shape_figure(Shape::chow(), Figure::from_id(28));
    let mut honors = Tiles::new();
    honors.add(Tile::from_id(112));
    honors.add(Tile::from_id(116));
    honors.add(Tile::from_id(120));
    assert!(honors.extract_set(honor_chow).is_none());
}

#[test]
fn figures_shape_tests() {
    let mut h = Tiles::new();
    // Three copies of figure 5, a run 10-11-12, one honor figure twice.
    h.add(Tile::from_id(20));
    h.add(Tile::from_id(21));
    h.add(Tile::from_id(22));
    h.add(Tile::from_id(40));
    h.add(Tile::from_id(44));
    h.add(Tile::from_id(48));
    h.add(Tile::from_id(112));
    h.add(Tile::from_id(113));
    let figs = h.clone().figures();
    assert!(figs.has_pung(Figure::from_id(5)));
    assert!(!figs.has_kong(Figure::from_id(5)));
    assert!(figs.has_pair(Figure::from_id(5)));
    assert!(figs.has_chow(Figure::from_id(10)));
    assert!(!figs.has_chow(Figure::from_id(11)));
    assert!(figs.has_pair(Figure::from_id(28)));
    assert!(figs.has_one(Figure::from_id(28)));
    assert_eq!(h.count(), 8);
}

#[test]
fn figures_honor_suit_never_chows() {
    // Honor figures in a row never count as a run, whatever the counts.
    let mut h = Tiles::new();
    for f in 27..34 {
        h.add(Tile::from_id(f * 4));
    }
    let figs = h.figures();
    for f in 27..34 {
        assert!(!figs.has_chow(Figure::from_id(f)));
        assert!(figs.has_one(Figure::from_id(f)));
    }
}

#[test]
fn suitranks_shape_predicates() {
    let mut chow = Ranks::new();
    chow.add(Rank::from_id(3));
    chow.add(Rank::from_id(4));
    chow.add(Rank::from_id(5));
    let sr = SuitRanks::from_suitranks(Suit::bamboo(), chow);
    assert!(sr.is_chow());
    assert!(!sr.is_pong());
    assert_eq!(sr.tile_count(), 3);
    let figs = sr.to_figures();
    assert_eq!(figs.len(), 3);
    assert_eq!(figs[0], Figure::from_id(12));
    assert_eq!(figs[1], Figure::from_id(13));
    assert_eq!(figs[2], Figure::from_id(14));

    let mut pong = Ranks::new();
    pong.add(Rank::from_id(6));
    pong.add(Rank::from_id(6));
    pong.add(Rank::from_id(6));
    let sp = SuitRanks::from_suitranks(Suit::chara(), pong);
    assert!(sp.is_pong());
    assert!(!sp.is_chow());

    let mut pair = Ranks::new();
    pair.add(Rank::from_id(8));
    pair.add(Rank::from_id(8));
    let spr = SuitRanks::from_suitranks(Suit::circle(), pair);
    assert!(spr.is_pair());
    assert!(!spr.is_ryanmen());

    let honor_run = {
        let mut r = Ranks::new();
        r.add(Rank::from_id(0));
        r.add(Rank::from_id(1));
        r.add(Rank::from_id(2));
        r
    };
    let sh = SuitRanks::from_suitranks(Suit::hounor(), honor_run);
    assert!(!sh.is_chow());
}
