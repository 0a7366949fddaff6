use mahjong::action::{Choice, Claim, Claims, ParseError};
use mahjong::game::{resolve_claims, Phase, Step};
use mahjong::table::Wind;
use mahjong::tile::Figure;

#[test]
fn choice_parse_keywords() {
    assert_eq!(Choice::parse("NineTerminals"), Ok(Choice::NineTerminals));
    assert_eq!(Choice::parse("Mahjong"), Ok(Choice::Mahjong));
    assert_eq!(
        Choice::parse("Discard"),
        Ok(Choice::DrawAndDiscard { riichi: false })
    );
    assert_eq!(
        Choice::parse("Riichi"),
        Ok(Choice::DrawAndDiscard { riichi: true })
    );
}

#[test]
fn choice_parse_with_figure() {
    let glyph = Figure::from_id(23).show();
    let text = format!("Discard {}", glyph);
    assert_eq!(
        Choice::parse(&text),
        Ok(Choice::Discard { figure: Figure::from_id(23), riichi: false })
    );
    let kong = format!("Kong {}", glyph);
    assert_eq!(Choice::parse(&kong), Ok(Choice::Kong(Figure::from_id(23))));
}

#[test]
fn choice_parse_errors() {
    assert_eq!(Choice::parse(""), Err(ParseError::NoCommand));
    assert_eq!(Choice::parse("   "), Err(ParseError::NoCommand));
    assert_eq!(Choice::parse("Frobnicate"), Err(ParseError::UnknownCommand));
    assert_eq!(Choice::parse("Kong"), Err(ParseError::MissingArgument));
    assert_eq!(Choice::parse("Kong x"), Err(ParseError::BadFigure));
    assert_eq!(Choice::parse("Discard notatile"), Err(ParseError::BadFigure));
}

#[test]
fn claim_parse_keywords() {
    assert_eq!(Claim::parse("Mahjong"), Ok(Claim::mahjong()));
    assert_eq!(Claim::parse("Kong"), Ok(Claim::kong()));
    assert_eq!(Claim::parse("Pung"), Ok(Claim::pung()));
    assert_eq!(Claim::parse("Chow"), Ok(Claim::chow()));
    assert_eq!(Claim::parse("Through"), Ok(Claim::through()));
    assert_eq!(Claim::parse("pass"), Err(ParseError::UnknownCommand));
    assert_eq!(Claim::parse(" "), Err(ParseError::NoCommand));
}

#[test]
fn claim_priority_pung_over_chow() {
    // The discarder is South; East calls a run, West a triplet, North
    // passes.  The triplet outranks the run, so West melds.
    let mut claims = Claims::new(Wind::south());
    claims.add(Claim::chow(), Wind::east());
    claims.add(Claim::pung(), Wind::west());
    claims.add(Claim::through(), Wind::north());
    let step = resolve_claims(claims, false);
    assert_eq!(
        step,
        Step::Phase(Phase::Meld { wind: Wind::west(), claim: Claim::pung() })
    );
}

#[test]
fn claim_priority_mahjong_wins() {
    let mut claims = Claims::new(Wind::east());
    claims.add(Claim::pung(), Wind::south());
    claims.add(Claim::mahjong(), Wind::north());
    let step = resolve_claims(claims, false);
    assert_eq!(step, Step::Finish(mahjong::game::Finish::WinByDiscard(Wind::north())));
}

#[test]
fn claim_tie_breaks_clockwise() {
    // Two triplet calls on West's discard: the nearer claimer clockwise
    // (North) wins over the farther (South).
    let mut claims = Claims::new(Wind::west());
    claims.add(Claim::pung(), Wind::south());
    claims.add(Claim::pung(), Wind::north());
    let step = resolve_claims(claims, false);
    assert_eq!(
        step,
        Step::Phase(Phase::Meld { wind: Wind::north(), claim: Claim::pung() })
    );
}

#[test]
fn no_claims_passes_to_next_seat() {
    let mut claims = Claims::new(Wind::north());
    claims.add(Claim::through(), Wind::east());
    claims.add(Claim::through(), Wind::south());
    claims.add(Claim::through(), Wind::west());
    assert!(claims.is_empty());
    let step = resolve_claims(claims, false);
    assert_eq!(step, Step::Phase(Phase::Draw { wind: Wind::east() }));
}

#[test]
fn kong_claims_ignored_while_robbing() {
    // While an added quad stands open only a win may interrupt; other
    // claims fall through to the declarer's replacement draw.
    let mut claims = Claims::new(Wind::east());
    claims.add(Claim::pung(), Wind::west());
    let step = resolve_claims(claims, true);
    assert_eq!(
        step,
        Step::Phase(Phase::Replace { wind: Wind::east(), expose: true })
    );
}
