//! The turn state machine: phases, hand endings, score sticks, and the
//! transitions that drive one hand from deal to finish.
//!
//! Every transition here is pure table logic: whatever reads player input
//! sits outside, parses the text into a [`Choice`] or [`Claim`], and hands
//! the value in.

use vstd::prelude::*;

use crate::action::{Choice, Claim, Claims};
use crate::dice::Dice;
use crate::meld::Meld;
use crate::table::{Rivers, Table, Wind};
use crate::tile::{Figure, Group, Shape, Tile};

verus! {

/// The table's point sticks: four scores, bankruptcy flags, and the pot.
#[derive(Debug)]
pub struct Sticks {
    pub score: Vec<isize>,
    pub burst_flags: u8,
    pub deposit: isize,
    pub stack: isize,
}

impl Sticks {
    pub open spec fn wf(self) -> bool {
        self.score@.len() == 4
    }

    pub fn new() -> (r: Self)
        ensures
            r.wf(),
            forall|i: int| 0 <= i < 4 ==> r.score@[i] == 25000,
            r.burst_flags == 0,
            r.deposit == 0,
            r.stack == 0,
    {
        let mut score: Vec<isize> = Vec::new();
        score.push(25000);
        score.push(25000);
        score.push(25000);
        score.push(25000);
        Sticks { score, burst_flags: 0, deposit: 0, stack: 0 }
    }

    /// Moves `points` from one seat to another.
    pub fn payment(&mut self, payer: usize, receiver: usize, points: isize)
        requires
            old(self).wf(),
            payer < 4,
            receiver < 4,
            isize::MIN <= old(self).score@[payer as int] - points,
            old(self).score@[receiver as int] + points <= isize::MAX,
            isize::MIN <= old(self).score@[receiver as int] + points,
            old(self).score@[payer as int] - points <= isize::MAX,
        ensures
            final(self).wf(),
            payer != receiver ==> {
                &&& final(self).score@[payer as int] == old(self).score@[payer as int] - points
                &&& final(self).score@[receiver as int]
                    == old(self).score@[receiver as int] + points
            },
            payer == receiver ==> final(self).score@[payer as int]
                == old(self).score@[payer as int],
            forall|i: int| 0 <= i < 4 && i != payer as int && i != receiver as int ==>
                final(self).score@[i] == old(self).score@[i],
            final(self).burst_flags == old(self).burst_flags,
    {
        let a = self.score[payer] - points;
        self.score.set(payer, a);
        let b = self.score[receiver] + points;
        self.score.set(receiver, b);
    }

    /// Whether any seat has gone below zero and ended the match early.
    pub fn is_bursted(&self) -> (r: bool)
        ensures
            r == (self.burst_flags != 0),
    {
        self.burst_flags != 0
    }
}

/// Whose action is next, and in what mode.  Exactly one phase is live at a
/// time; the hand loop owns it.
#[derive(Copy, Clone, Debug, PartialEq, Eq, Structural)]
pub enum Phase {
    /// `wind` draws from the live end.
    Draw { wind: Wind },
    /// `wind` holds a fresh draw and must choose an action.
    Choose { wind: Wind, drawn: Tile },
    /// `wind` draws a replacement from the dead-wall end after a quad.
    Replace { wind: Wind, expose: bool },
    /// The last discard stands open to claims from the other three seats.
    Ask { kong: bool },
    /// `wind` won a claim and must now take the tiles and expose the group.
    Meld { wind: Wind, claim: Claim },
    /// `wind` melded and must discard without drawing.
    Discard { wind: Wind },
}

impl Phase {
    /// A hand starts with the dealer's draw.
    pub fn new() -> (r: Phase)
        ensures
            r == (Phase::Draw { wind: Wind(0) }),
    {
        Phase::Draw { wind: Wind::east() }
    }
}

/// How a hand ended.
#[derive(Copy, Clone, Debug, PartialEq, Eq, Structural)]
pub enum Finish {
    /// A seat won on its own draw.
    WinByDraw(Wind, Tile),
    /// A seat won on another seat's discard.
    WinByDiscard(Wind),
    /// The live wall ran out.
    ExhaustiveDraw,
    /// All four seats declared ready.
    FourRiichiAbort,
    /// A starting hand of nine distinct terminals and honors was declared.
    NineTerminalAbort,
    /// All four seats discarded the same wind tile on the first go-around.
    FourWindAbort,
    /// Three seats claimed a win on the same discard.
    ThreeWinAbort,
    /// Four quads stand exposed across different seats.
    FourKongAbort,
}

impl Finish {
    /// Whether the hand ended with no winner.
    pub fn is_goulash_hand(self) -> (r: bool)
        ensures
            r == !(self is WinByDraw || self is WinByDiscard),
    {
        match self {
            Finish::ExhaustiveDraw | Finish::FourRiichiAbort | Finish::NineTerminalAbort
                | Finish::FourWindAbort | Finish::ThreeWinAbort | Finish::FourKongAbort => true,
            _ => false,
        }
    }

    /// Whether the dealer won the hand.
    pub fn is_dealer_win(self) -> (r: bool)
        ensures
            r == ((self matches Finish::WinByDraw(w, _t) && w.0 == 0)
                || (self matches Finish::WinByDiscard(w) && w.0 == 0)),
    {
        match self {
            Finish::WinByDraw(w, _) => w.id() == 0,
            Finish::WinByDiscard(w) => w.id() == 0,
            _ => false,
        }
    }

    /// Whether the same dealer plays again: after any winnerless ending or
    /// a dealer win.
    pub fn has_bonus_hand(self) -> (r: bool)
        ensures
            r == (!(self is WinByDraw || self is WinByDiscard)
                || (self matches Finish::WinByDraw(w, _t) && w.0 == 0)
                || (self matches Finish::WinByDiscard(w) && w.0 == 0)),
    {
        self.is_goulash_hand() || self.is_dealer_win()
    }
}

/// What one transition yields: the next phase, or the end of the hand.
#[derive(Copy, Clone, Debug, PartialEq, Eq, Structural)]
pub enum Step {
    Phase(Phase),
    Finish(Finish),
}

impl Step {
    pub fn phase(phase: Phase) -> (r: Self)
        ensures
            r == Step::Phase(phase),
    {
        Step::Phase(phase)
    }

    pub fn finish(finish: Finish) -> (r: Self)
        ensures
            r == Step::Finish(finish),
    {
        Step::Finish(finish)
    }
}

/// An action that was syntactically valid but cannot be carried out on the
/// current table.  The engine reports it and the seat is asked again.
#[derive(Copy, Clone, Debug, PartialEq, Eq, Structural)]
pub enum ActionError {
    /// The named tile is not in the hand.
    NotInHand,
    /// No quad can be formed on the named figure.
    CannotKong,
    /// The claimed group cannot be assembled from the hand.
    CannotMeld,
}

/// The draw transition: `wind` draws a live tile, or the hand ends in an
/// exhaustive draw.
pub fn draw_step(table: &mut Table, wind: Wind) -> (r: Step)
    requires
        old(table).wf(),
        wind.wf(),
    ensures
        final(table).wf(),
        final(table).lands == old(table).lands,
        final(table).rivers == old(table).rivers,
        final(table).wall.tiles@ == old(table).wall.tiles@,
        old(table).wall.len_spec() <= 14 ==> r == Step::Finish(Finish::ExhaustiveDraw)
            && final(table).wall == old(table).wall,
        old(table).wall.len_spec() > 14 ==> {
            &&& r == Step::Phase(Phase::Choose { wind, drawn: old(table).wall.live_seq().last() })
            &&& final(table).wall.len_spec() == old(table).wall.len_spec() - 1
            &&& final(table).wall.live_seq() == old(table).wall.live_seq().drop_last()
        },
{
    let got = table.draw_tile();
    match got {
        Some(tile) => Step::Phase(Phase::Choose { wind, drawn: tile }),
        None => Step::Finish(Finish::ExhaustiveDraw),
    }
}

/// The replacement-draw transition after a quad: `wind` draws from the
/// dead-wall end, or the hand ends in an exhaustive draw.
pub fn replace_step(table: &mut Table, wind: Wind, expose: bool) -> (r: Step)
    requires
        old(table).wf(),
        wind.wf(),
    ensures
        final(table).wf(),
        final(table).lands == old(table).lands,
        final(table).rivers == old(table).rivers,
        final(table).wall.tiles@ == old(table).wall.tiles@,
        old(table).wall.len_spec() <= 14 ==> r == Step::Finish(Finish::ExhaustiveDraw)
            && final(table).wall == old(table).wall,
        old(table).wall.len_spec() > 14 ==> {
            &&& r == Step::Phase(Phase::Choose { wind, drawn: old(table).wall.live_seq().first() })
            &&& final(table).wall.len_spec() == old(table).wall.len_spec() - 1
            &&& final(table).wall.live_seq() == old(table).wall.live_seq().drop_first()
        },
{
    let _ = expose;
    let got = table.draw_replacement();
    match got {
        Some(tile) => Step::Phase(Phase::Choose { wind, drawn: tile }),
        None => Step::Finish(Finish::ExhaustiveDraw),
    }
}

/// The transition out of a meld: the claimer discards next, with no draw.
pub fn discard_step(table: &mut Table, wind: Wind) -> (r: Step)
    requires
        old(table).wf(),
        wind.wf(),
    ensures
        *final(table) == *old(table),
        r == Step::Phase(Phase::Ask { kong: false }),
{
    let _ = wind;
    Step::Phase(Phase::Ask { kong: false })
}

/// Resolves the collected claims of one discard: the best claim wins, by
/// kind first and then by clockwise nearness to the discarder; with no
/// claim, play passes to the next seat (or back to the quad declarer).
pub fn resolve_claims(claims: Claims, kong: bool) -> (r: Step)
    requires
        claims.wf(),
    ensures
        ({
            let fallthrough = if !kong {
                Step::Phase(Phase::Draw { wind: Wind(((claims.claimee.0 + 1) % 4) as u8) })
            } else {
                Step::Phase(Phase::Replace { wind: claims.claimee, expose: true })
            };
            let i = crate::action::lowest_from(claims.claims, 0);
            if claims.claims == 0 {
                r == fallthrough
            } else if i / 3 == 0 {
                r == Step::Finish(Finish::WinByDiscard(Wind(((claims.claimee.0 + i % 3 + 1) % 4)
                    as u8)))
            } else if !kong {
                r == Step::Phase(Phase::Meld {
                    wind: Wind(((claims.claimee.0 + i % 3 + 1) % 4) as u8),
                    claim: Claim((i / 3) as u8),
                })
            } else {
                r == fallthrough
            }
        }),
{
    let mut pool = claims;
    let claimee = pool.claimee;
    let fallthrough = if !kong {
        Step::Phase(Phase::Draw { wind: claimee.rightside() })
    } else {
        Step::Phase(Phase::Replace { wind: claimee, expose: true })
    };
    let got = pool.next();
    if let Some((claim, claimer)) = got {
        if claim.id() == 0 {
            Step::Finish(Finish::WinByDiscard(claimer))
        } else if !kong {
            Step::Phase(Phase::Meld { wind: claimer, claim })
        } else {
            fallthrough
        }
    } else {
        fallthrough
    }
}

/// The concealed hand of `w`.
pub open spec fn hand_of(t: Table, w: Wind) -> crate::tile::Tiles {
    t.lands.tiles@[w.0 as int]
}

/// Whether `m` is an exposed triplet of `f` owned by `w`: its group byte
/// says triplet-of-`f`, and the discard entry it references was robbed by
/// `w`.
pub open spec fn is_own_pung(m: Meld, r: Rivers, f: Figure, w: Wind) -> bool {
    &&& m.set_spec().shape_spec().0 == 1
    &&& m.set_spec().figure_spec().0 == f.0
    &&& m.robbed_spec() < r.tiles@.len()
    &&& r.tiles@[m.robbed_spec()].robbed_spec()
    &&& r.tiles@[m.robbed_spec()].robbedby_spec() == w.0
}

/// Whether the hand plus the drawn tile holds all four copies of `f`.
pub open spec fn kong_concealed_ok(t: Table, w: Wind, f: Figure, drawn: Tile) -> bool {
    hand_of(t, w).copies_of_figure(f.0 as int)
        + (if drawn.0 as int / 4 == f.0 as int { 1int } else { 0int }) >= 4
}

/// Whether `w` has an exposed triplet of `f` to upgrade, and a fourth copy
/// in hand (the drawn tile counted).
pub open spec fn kong_added_ok(t: Table, w: Wind, f: Figure, drawn: Tile) -> bool {
    &&& exists|i: int| 0 <= i < t.lands.melds.melds@.len()
        && is_own_pung(#[trigger] t.lands.melds.melds@[i], t.rivers, f, w)
    &&& hand_of(t, w).copies_of_figure(f.0 as int)
        + (if drawn.0 as int / 4 == f.0 as int { 1int } else { 0int }) >= 1
}

/// Finds the first exposed triplet of `figure` owned by `wind`.
fn find_pung_meld(melds: &crate::table::Melds, rivers: &Rivers, figure: Figure, wind: Wind)
    -> (r: Option<usize>)
    ensures
        r is Some ==> r->0 < melds.melds@.len()
            && is_own_pung(melds.melds@[r->0 as int], *rivers, figure, wind),
        r is None ==> forall|i: int| 0 <= i < melds.melds@.len()
            ==> !is_own_pung(#[trigger] melds.melds@[i], *rivers, figure, wind),
{
    let n = melds.len();
    for i in 0..n
        invariant
            n == melds.melds@.len(),
            forall|j: int| 0 <= j < i ==> !is_own_pung(#[trigger] melds.melds@[j], *rivers,
                figure, wind),
    {
        let m = melds.get(i);
        let set = m.set();
        if set.shape().id() == 1 && set.figure().id() == figure.id() {
            let got = m.wind(rivers);
            if let Some(owner) = got {
                if owner.id() == wind.id() {
                    proof {
                        let e = rivers.tiles@[m.robbed_spec()].0;
                        assert((e >> 3) & 3 < 4) by (bit_vector);
                    }
                    return Some(i);
                }
            }
        }
    }
    None
}

/// Carries out the choice a seat made over its fresh draw.
///
/// A plain discard throws the drawn tile; a named discard swaps it into the
/// hand; a quad call exposes a concealed quad (drawing a replacement next)
/// or upgrades an exposed triplet (opening the added tile to robbing); a
/// declared win or nine-terminals abort ends the hand.  An action the hand
/// cannot supply leaves the table untouched and is reported, so the seat
/// can be asked again.
///
/// The drawn tile is a physical piece fresh from the wall, so it cannot
/// already sit in the hand; and the discard pile stays short enough that
/// a meld's eight-bit provenance index can always name its newest entry.
pub fn do_choice(table: &mut Table, wind: Wind, choice: Choice, drawn: Tile)
    -> (r: Result<Step, ActionError>)
    requires
        old(table).wf(),
        wind.wf(),
        drawn.wf(),
        old(table).rivers.tiles@.len() < 250,
        choice matches Choice::Discard { figure, riichi } ==> figure.wf(),
        choice matches Choice::Kong(figure) ==> figure.wf(),
        !hand_of(*old(table), wind).has_tile(drawn.0 as int),
    ensures
        final(table).wf(),
        choice matches Choice::DrawAndDiscard { riichi } ==> {
            &&& r == Ok::<Step, ActionError>(Step::Phase(Phase::Ask { kong: false }))
            &&& final(table).lands == old(table).lands
            &&& final(table).wall == old(table).wall
            &&& final(table).rivers.tiles@.len() == old(table).rivers.tiles@.len() + 1
            &&& final(table).rivers.tiles@.last().tile_spec() == drawn.0
            &&& final(table).rivers.tiles@.last().discarder_spec() == wind.0
            &&& !final(table).rivers.tiles@.last().robbed_spec()
            &&& forall|i: int| 0 <= i < old(table).rivers.tiles@.len() ==>
                final(table).rivers.tiles@[i] == old(table).rivers.tiles@[i]
        },
        choice matches Choice::Discard { figure, riichi } ==> {
            if hand_of(*old(table), wind).copies_of_figure(figure.0 as int) == 0 {
                r == Err::<Step, ActionError>(ActionError::NotInHand)
                    && *final(table) == *old(table)
            } else {
                &&& r == Ok::<Step, ActionError>(Step::Phase(Phase::Ask { kong: false }))
                &&& final(table).wall == old(table).wall
                &&& final(table).lands.melds == old(table).lands.melds
                &&& final(table).rivers.tiles@.len() == old(table).rivers.tiles@.len() + 1
                &&& final(table).rivers.tiles@.last().tile_spec() / 4 == figure.0
                &&& final(table).rivers.tiles@.last().discarder_spec() == wind.0
                &&& forall|i: int| 0 <= i < old(table).rivers.tiles@.len() ==>
                    final(table).rivers.tiles@[i] == old(table).rivers.tiles@[i]
                &&& forall|g: int| 0 <= g < 34 ==> hand_of(*final(table), wind)
                    .copies_of_figure(g) == hand_of(*old(table), wind).copies_of_figure(g)
                    - (if g == figure.0 as int { 1int } else { 0int })
                    + (if g == drawn.0 as int / 4 { 1int } else { 0int })
                &&& forall|s: int| 0 <= s < 4 && s != wind.0 as int ==>
                    final(table).lands.tiles@[s] == old(table).lands.tiles@[s]
            }
        },
        choice matches Choice::Kong(figure) ==> {
            if kong_concealed_ok(*old(table), wind, figure, drawn) {
                &&& r == Ok::<Step, ActionError>(Step::Phase(Phase::Replace { wind,
                    expose: false }))
                &&& final(table).wall == old(table).wall
                &&& final(table).rivers.tiles@.len() == old(table).rivers.tiles@.len() + 1
                &&& final(table).rivers.tiles@.last().tile_spec() / 4 == figure.0
                &&& final(table).rivers.tiles@.last().robbed_spec()
                &&& final(table).rivers.tiles@.last().robbedby_spec() == wind.0
                &&& final(table).lands.melds.melds@.len()
                    == old(table).lands.melds.melds@.len() + 1
                &&& final(table).lands.melds.melds@.last().set_spec().shape_spec().0 == 2
                &&& final(table).lands.melds.melds@.last().set_spec().figure_spec().0 == figure.0
                &&& final(table).lands.melds.melds@.last().robbed_spec()
                    == old(table).rivers.tiles@.len()
                &&& forall|g: int| 0 <= g < 34 ==> hand_of(*final(table), wind)
                    .copies_of_figure(g) == hand_of(*old(table), wind).copies_of_figure(g)
                    + (if drawn.0 as int / 4 == g { 1int } else { 0int })
                    - (if g == figure.0 as int { 4int } else { 0int })
                &&& forall|s: int| 0 <= s < 4 && s != wind.0 as int ==>
                    final(table).lands.tiles@[s] == old(table).lands.tiles@[s]
            } else if kong_added_ok(*old(table), wind, figure, drawn) {
                &&& r == Ok::<Step, ActionError>(Step::Phase(Phase::Ask { kong: true }))
                &&& final(table).wall == old(table).wall
                &&& final(table).rivers.tiles@.len() == old(table).rivers.tiles@.len() + 1
                &&& final(table).rivers.tiles@.last().tile_spec() / 4 == figure.0
                &&& final(table).lands.melds.melds@.len() == old(table).lands.melds.melds@.len()
                &&& exists|i: int| 0 <= i < old(table).lands.melds.melds@.len()
                    && is_own_pung(#[trigger] old(table).lands.melds.melds@[i],
                        old(table).rivers, figure, wind)
                    && final(table).lands.melds.melds@[i].set_spec().shape_spec().0 == 3
                    && final(table).lands.melds.melds@[i].set_spec().figure_spec().0 == figure.0
                    && final(table).lands.melds.melds@[i].robbed_spec()
                        == old(table).lands.melds.melds@[i].robbed_spec()
                    && final(table).lands.melds.melds@[i].added_spec()
                        == old(table).rivers.tiles@.len()
                    && (forall|j: int| 0 <= j < old(table).lands.melds.melds@.len() && j != i ==>
                        final(table).lands.melds.melds@[j] == old(table).lands.melds.melds@[j])
                &&& forall|g: int| 0 <= g < 34 ==> hand_of(*final(table), wind)
                    .copies_of_figure(g) == hand_of(*old(table), wind).copies_of_figure(g)
                    + (if drawn.0 as int / 4 == g { 1int } else { 0int })
                    - (if g == figure.0 as int { 1int } else { 0int })
                &&& forall|s: int| 0 <= s < 4 && s != wind.0 as int ==>
                    final(table).lands.tiles@[s] == old(table).lands.tiles@[s]
            } else {
                r == Err::<Step, ActionError>(ActionError::CannotKong)
                    && *final(table) == *old(table)
            }
        },
        choice is Mahjong ==> r == Ok::<Step, ActionError>(Step::Finish(Finish::WinByDraw(wind,
            drawn))) && *final(table) == *old(table),
        choice is NineTerminals ==> r == Ok::<Step, ActionError>(Step::Finish(
            Finish::NineTerminalAbort)) && *final(table) == *old(table),
{
    let wid = wind.id();
    match choice {
        Choice::DrawAndDiscard { riichi } => {
            let _ = riichi;
            table.rivers.add(wind, drawn);
            Ok(Step::Phase(Phase::Ask { kong: false }))
        },
        Choice::Discard { figure, riichi } => {
            let _ = riichi;
            let mut h = table.lands.tiles[wid].clone();
            let got = h.extract_figure(figure);
            match got {
                Some(discard) => {
                    proof {
                        hand_of(*old(table), wind).lemma_copies_figure_bounds(drawn.0 as int / 4);
                    }
                    h.add(drawn);
                    table.lands.tiles.set(wid, h);
                    table.rivers.add(wind, discard);
                    Ok(Step::Phase(Phase::Ask { kong: false }))
                },
                None => Err(ActionError::NotInHand),
            }
        },
        Choice::Kong(figure) => {
            let mut h = table.lands.tiles[wid].clone();
            proof {
                hand_of(*old(table), wind).lemma_copies_figure_bounds(drawn.0 as int / 4);
                assert forall|g: int| 0 <= g < 34 implies #[trigger] h.copies_of_figure(g)
                    == hand_of(*old(table), wind).copies_of_figure(g) by {}
            }
            let ghost h0 = h;
            h.add(drawn);
            let ghost ha = h;
            proof {
                assert forall|g: int| 0 <= g < 34 implies #[trigger] ha.copies_of_figure(g)
                    == h0.copies_of_figure(g)
                    + (if drawn.0 as int / 4 == g { 1int } else { 0int }) by {}
            }
            proof {
                assert forall|g: int| 0 <= g < 34 implies 0 <= h.copies_of_figure(g) by {
                    h.lemma_copies_figure_bounds(g);
                }
            }
            let kong_group = Group::from_shape_figure(Shape::kong(), figure);
            let got = h.extract_set(kong_group);
            if let Some(ts) = got {
                proof {
                    assert(ha.copies_of_figure(figure.0 as int)
                        >= crate::tile::Tiles::group_need(kong_group, figure.0 as int));
                    assert(kong_concealed_ok(*old(table), wind, figure, drawn));
                }
                table.lands.tiles.set(wid, h);
                let first = ts[0];
                table.rivers.add(wind, first);
                let robbed = table.rivers.rob(wind);
                match robbed {
                    Some((t, i)) => {
                        let meld = Meld::from_set_robinfo(
                            Group::from_shape_figure(Shape::kong(), t.figure()),
                            i,
                        );
                        table.lands.melds.add(meld);
                        Ok(Step::Phase(Phase::Replace { wind, expose: false }))
                    },
                    None => {
                        proof {
                            assert(false);
                        }
                        Err(ActionError::CannotKong)
                    },
                }
            } else {
                let found = find_pung_meld(&table.lands.melds, &table.rivers, figure, wind);
                if let Some(mi) = found {
                    proof {
                        assert(is_own_pung(old(table).lands.melds.melds@[mi as int],
                            old(table).rivers, figure, wind));
                        assert forall|g: int| 0 <= g < 34 implies #[trigger] h.copies_of_figure(
                            g) == ha.copies_of_figure(g) by {}
                    }
                    let ghost hb = h;
                    proof {
                        hb.lemma_copies_figure_bounds(figure.0 as int);
                    }
                    let got2 = h.extract_figure(figure);
                    if let Some(t) = got2 {
                        table.lands.tiles.set(wid, h);
                        table.rivers.add(wind, t);
                        let old_meld = table.lands.melds.get(mi);
                        let mut m2 = Meld::from_set_robinfo(
                            Group::from_shape_figure(Shape::added_kong(), figure),
                            old_meld.robbed_from(),
                        );
                        m2.set_addinfo(table.rivers.len() - 1);
                        table.lands.melds.update(mi, m2);
                        proof {
                            let i = mi as int;
                            assert(table.lands.melds.melds@[i].set_spec().shape_spec().0 == 3);
                            assert(table.lands.melds.melds@[i].added_spec()
                                == old(table).rivers.tiles@.len());
                            assert forall|g: int| 0 <= g < 34 implies hand_of(*table, wind)
                                .copies_of_figure(g) == hand_of(*old(table), wind)
                                .copies_of_figure(g)
                                + (if drawn.0 as int / 4 == g { 1int } else { 0int })
                                - (if g == figure.0 as int { 1int } else { 0int }) by {
                                assert(hand_of(*table, wind).copies_of_figure(g)
                                    == hb.copies_of_figure(g)
                                    - (if g == figure.0 as int { 1int } else { 0int }));
                            }
                        }
                        Ok(Step::Phase(Phase::Ask { kong: true }))
                    } else {
                        proof {
                            assert(!kong_added_ok(*old(table), wind, figure, drawn));
                        }
                        Err(ActionError::CannotKong)
                    }
                } else {
                    proof {
                        assert(!kong_added_ok(*old(table), wind, figure, drawn));
                    }
                    Err(ActionError::CannotKong)
                }
            }
        },
        Choice::Mahjong => Ok(Step::Finish(Finish::WinByDraw(wind, drawn))),
        Choice::NineTerminals => Ok(Step::Finish(Finish::NineTerminalAbort)),
    }
}

/// Whether a run starting at figure `s` can take the claimed figure `f`:
/// `s` stays inside one numeral suit and the hand holds the two members of
/// the run other than `f`.
pub open spec fn chow_with(h: crate::tile::Tiles, f: int, s: int) -> bool {
    &&& 0 <= f - s <= 2
    &&& f % 9 >= f - s
    &&& s % 9 <= 6
    &&& (s == f || h.copies_of_figure(s) >= 1)
    &&& (s + 1 == f || h.copies_of_figure(s + 1) >= 1)
    &&& (s + 2 == f || h.copies_of_figure(s + 2) >= 1)
}

/// Whether any run can take the claimed figure `f` from this hand.
pub open spec fn chow_ok(h: crate::tile::Tiles, f: int) -> bool {
    f / 9 < 3 && (chow_with(h, f, f) || chow_with(h, f, f - 1) || chow_with(h, f, f - 2))
}

/// Whether the claim can be carried out at all: there is an unclaimed
/// discard on top of the pile, and the claimer's hand holds what the
/// group needs beyond the claimed tile itself.
pub open spec fn meld_ok(t: Table, w: Wind, claim: Claim) -> bool {
    let riv = t.rivers.tiles@;
    &&& riv.len() > 0
    &&& !riv.last().robbed_spec()
    &&& {
        let f = riv.last().tile_spec() / 4;
        let h = hand_of(t, w);
        if claim.0 == 1 {
            h.copies_of_figure(f) >= 3
        } else if claim.0 == 2 {
            h.copies_of_figure(f) >= 2
        } else {
            chow_ok(h, f)
        }
    }
}

/// The run start the engine picks when several fit: the highest first.
pub open spec fn chow_pick(h: crate::tile::Tiles, f: int) -> int {
    if chow_with(h, f, f) {
        f
    } else if chow_with(h, f, f - 1) {
        f - 1
    } else {
        f - 2
    }
}

/// A copy of `h0` with `n` copies of `f` taken out, or nothing if `h0`
/// holds fewer than `n`.
fn take_copies(h0: &crate::tile::Tiles, f: Figure, n: usize) -> (r: Option<crate::tile::Tiles>)
    requires
        h0.wf(),
        f.wf(),
        1 <= n <= 3,
    ensures
        (r is Some) <==> h0.copies_of_figure(f.0 as int) >= n,
        r is Some ==> {
            let h = r->0;
            &&& h.wf()
            &&& h.copies_of_figure(f.0 as int) == h0.copies_of_figure(f.0 as int) - n
            &&& forall|g: int| 0 <= g < 34 && g != f.0 as int ==> h.copies_of_figure(g)
                == h0.copies_of_figure(g)
            &&& h.total() == h0.total() - n
        },
{
    let mut h = h0.clone();
    proof {
        h.lemma_copies_figure_bounds(f.0 as int);
        assert(h.copies_of_figure(f.0 as int) == h0.copies_of_figure(f.0 as int));
    }
    let mut taken: usize = 0;
    while taken < n
        invariant
            h.wf(),
            taken <= n,
            n <= 3,
            f.wf(),
            0 <= h0.copies_of_figure(f.0 as int) <= 4,
            h.copies_of_figure(f.0 as int) == h0.copies_of_figure(f.0 as int) - taken,
            forall|g: int| 0 <= g < 34 && g != f.0 as int ==> h.copies_of_figure(g)
                == h0.copies_of_figure(g),
            h.total() == h0.total() - taken,
        decreases n - taken,
    {
        let got = h.extract_figure(f);
        if got.is_none() {
            return None;
        }
        taken = taken + 1;
    }
    proof {
        h.lemma_copies_figure_bounds(f.0 as int);
    }
    Some(h)
}

/// A copy of `h0` with one copy each of the distinct figures `a` and `b`
/// taken out, or nothing if either is missing.
fn take_two(h0: &crate::tile::Tiles, a: Figure, b: Figure) -> (r: Option<crate::tile::Tiles>)
    requires
        h0.wf(),
        a.wf(),
        b.wf(),
        a.0 != b.0,
    ensures
        (r is Some) <==> (h0.copies_of_figure(a.0 as int) >= 1
            && h0.copies_of_figure(b.0 as int) >= 1),
        r is Some ==> {
            let h = r->0;
            &&& h.wf()
            &&& h.copies_of_figure(a.0 as int) == h0.copies_of_figure(a.0 as int) - 1
            &&& h.copies_of_figure(b.0 as int) == h0.copies_of_figure(b.0 as int) - 1
            &&& forall|g: int| 0 <= g < 34 && g != a.0 as int && g != b.0 as int ==>
                h.copies_of_figure(g) == h0.copies_of_figure(g)
            &&& h.total() == h0.total() - 2
        },
{
    let mut h = h0.clone();
    proof {
        h.lemma_copies_figure_bounds(a.0 as int);
        h.lemma_copies_figure_bounds(b.0 as int);
        assert(h.copies_of_figure(a.0 as int) == h0.copies_of_figure(a.0 as int));
        assert(h.copies_of_figure(b.0 as int) == h0.copies_of_figure(b.0 as int));
    }
    let got_a = h.extract_figure(a);
    if got_a.is_none() {
        return None;
    }
    let got_b = h.extract_figure(b);
    if got_b.is_none() {
        return None;
    }
    proof {
        h.lemma_copies_figure_bounds(a.0 as int);
        h.lemma_copies_figure_bounds(b.0 as int);
    }
    Some(h)
}

/// Carries out a won claim: takes the complementary tiles from the
/// claimer's hand, marks the discard robbed, exposes the meld, and passes
/// the turn to the claimer's discard.  A claim the hand cannot supply
/// leaves the table untouched and is reported.  The discard pile stays
/// short enough that the meld's eight-bit provenance index can name it.
#[verifier::rlimit(100)]
pub fn meld_step(table: &mut Table, wind: Wind, claim: Claim) -> (r: Result<Step, ActionError>)
    requires
        old(table).wf(),
        wind.wf(),
        1 <= claim.0 <= 3,
        old(table).rivers.tiles@.len() < 250,
    ensures
        final(table).wf(),
        !meld_ok(*old(table), wind, claim) ==> r == Err::<Step, ActionError>(
            ActionError::CannotMeld) && *final(table) == *old(table),
        meld_ok(*old(table), wind, claim) ==> {
            let riv = old(table).rivers.tiles@;
            let f = riv.last().tile_spec() / 4;
            let h = hand_of(*old(table), wind);
            let start = chow_pick(h, f);
            &&& r == Ok::<Step, ActionError>(Step::Phase(Phase::Discard { wind }))
            &&& final(table).wall == old(table).wall
            &&& final(table).rivers.tiles@.len() == riv.len()
            &&& forall|i: int| 0 <= i < riv.len() - 1 ==> final(table).rivers.tiles@[i]
                == riv[i]
            &&& final(table).rivers.tiles@.last().robbed_spec()
            &&& final(table).rivers.tiles@.last().robbedby_spec() == wind.0
            &&& final(table).rivers.tiles@.last().tile_spec() == riv.last().tile_spec()
            &&& final(table).rivers.tiles@.last().discarder_spec()
                == riv.last().discarder_spec()
            &&& final(table).lands.melds.melds@.len()
                == old(table).lands.melds.melds@.len() + 1
            &&& forall|i: int| 0 <= i < old(table).lands.melds.melds@.len() ==>
                final(table).lands.melds.melds@[i] == old(table).lands.melds.melds@[i]
            &&& final(table).lands.melds.melds@.last().robbed_spec() == riv.len() - 1
            &&& final(table).lands.melds.melds@.last().set_spec().shape_spec().0
                == if claim.0 == 1 { 2int } else if claim.0 == 2 { 1int } else { 0int }
            &&& final(table).lands.melds.melds@.last().set_spec().figure_spec().0
                == if claim.0 == 3 { start } else { f }
            &&& forall|g: int| 0 <= g < 34 ==> hand_of(*final(table), wind).copies_of_figure(g)
                == hand_of(*old(table), wind).copies_of_figure(g) - (
                if claim.0 == 1 {
                    if g == f { 3int } else { 0int }
                } else if claim.0 == 2 {
                    if g == f { 2int } else { 0int }
                } else {
                    if start <= g <= start + 2 && g != f { 1int } else { 0int }
                })
            &&& forall|s: int| 0 <= s < 4 && s != wind.0 as int ==>
                final(table).lands.tiles@[s] == old(table).lands.tiles@[s]
        },
{
    let wid = wind.id();
    let top = table.rivers.top();
    let d = match top {
        Some(d) => d,
        None => {
            return Err(ActionError::CannotMeld);
        },
    };
    if d.is_robbed() {
        return Err(ActionError::CannotMeld);
    }
    let t = d.tile();
    proof {
        assert(old(table).rivers.tiles@.last().wf());
    }
    let f = t.figure();
    let committed: crate::tile::Tiles;
    let rep: Figure;
    let shape: Shape;
    if claim.id() == 1 {
        let got = take_copies(&table.lands.tiles[wid], f, 3);
        match got {
            Some(h) => {
                committed = h;
                rep = f;
                shape = Shape::kong();
            },
            None => {
                return Err(ActionError::CannotMeld);
            },
        }
    } else if claim.id() == 2 {
        let got = take_copies(&table.lands.tiles[wid], f, 2);
        match got {
            Some(h) => {
                committed = h;
                rep = f;
                shape = Shape::pung();
            },
            None => {
                return Err(ActionError::CannotMeld);
            },
        }
    } else {
        if !(f.id() / 9 < 3) {
            return Err(ActionError::CannotMeld);
        }
        shape = Shape::chow();
        let rank = f.id() % 9;
        let c0: Option<crate::tile::Tiles> = if rank <= 6 {
            take_two(&table.lands.tiles[wid], Figure(f.0 + 1), Figure(f.0 + 2))
        } else {
            None
        };
        if let Some(h) = c0 {
            committed = h;
            rep = f;
        } else {
            let c1: Option<crate::tile::Tiles> = if 1 <= rank && rank <= 7 {
                take_two(&table.lands.tiles[wid], Figure(f.0 - 1), Figure(f.0 + 1))
            } else {
                None
            };
            if let Some(h) = c1 {
                committed = h;
                rep = Figure(f.0 - 1);
            } else {
                let c2: Option<crate::tile::Tiles> = if 2 <= rank {
                    take_two(&table.lands.tiles[wid], Figure(f.0 - 2), Figure(f.0 - 1))
                } else {
                    None
                };
                if let Some(h) = c2 {
                    committed = h;
                    rep = Figure(f.0 - 2);
                } else {
                    proof {
                        assert(!chow_ok(hand_of(*old(table), wind), f.0 as int));
                    }
                    return Err(ActionError::CannotMeld);
                }
            }
        }
    }
    table.lands.tiles.set(wid, committed);
    let robbed = table.rivers.rob(wind);
    match robbed {
        Some((_t2, i)) => {
            let meld = Meld::from_set_robinfo(Group::from_shape_figure(shape, rep), i);
            table.lands.melds.add(meld);
            Ok(Step::Phase(Phase::Discard { wind }))
        },
        None => {
            proof {
                assert(false);
            }
            Err(ActionError::CannotMeld)
        },
    }
}

/// The discard a claimer owes right after melding: takes the named tile
/// from the hand (there was no draw, so nothing comes in), records it in
/// the pile, and opens it to claims.  A figure the hand does not hold
/// leaves the table untouched and is reported, so the seat is asked again.
pub fn discard_from_hand(table: &mut Table, wind: Wind, figure: Figure)
    -> (r: Result<Step, ActionError>)
    requires
        old(table).wf(),
        wind.wf(),
        figure.wf(),
    ensures
        final(table).wf(),
        hand_of(*old(table), wind).copies_of_figure(figure.0 as int) == 0 ==> r
            == Err::<Step, ActionError>(ActionError::NotInHand) && *final(table) == *old(table),
        hand_of(*old(table), wind).copies_of_figure(figure.0 as int) != 0 ==> {
            &&& r == Ok::<Step, ActionError>(Step::Phase(Phase::Ask { kong: false }))
            &&& final(table).wall == old(table).wall
            &&& final(table).lands.melds == old(table).lands.melds
            &&& final(table).rivers.tiles@.len() == old(table).rivers.tiles@.len() + 1
            &&& final(table).rivers.tiles@.last().tile_spec() / 4 == figure.0
            &&& final(table).rivers.tiles@.last().discarder_spec() == wind.0
            &&& !final(table).rivers.tiles@.last().robbed_spec()
            &&& forall|i: int| 0 <= i < old(table).rivers.tiles@.len() ==>
                final(table).rivers.tiles@[i] == old(table).rivers.tiles@[i]
            &&& forall|g: int| 0 <= g < 34 ==> hand_of(*final(table), wind).copies_of_figure(g)
                == hand_of(*old(table), wind).copies_of_figure(g)
                - (if g == figure.0 as int { 1int } else { 0int })
            &&& forall|s: int| 0 <= s < 4 && s != wind.0 as int ==>
                final(table).lands.tiles@[s] == old(table).lands.tiles@[s]
        },
{
    let wid = wind.id();
    let mut h = table.lands.tiles[wid].clone();
    let got = h.extract_figure(figure);
    match got {
        Some(discard) => {
            table.lands.tiles.set(wid, h);
            table.rivers.add(wind, discard);
            Ok(Step::Phase(Phase::Ask { kong: false }))
        },
        None => Err(ActionError::NotInHand),
    }
}

/// No hand holds a tile that still waits in the wall.  The deal keeps this
/// so that every drawn tile is new to its hand.
pub open spec fn undealt(t: Table) -> bool {
    forall|s: int, k: int| 0 <= s < 4 && 0 <= k < t.wall.len_spec()
        ==> !(#[trigger] t.lands.tiles@[s].has_tile(t.wall.live_seq()[k].0 as int))
}

/// No two hands hold the same physical tile.
pub open spec fn hands_disjoint(t: Table) -> bool {
    forall|s1: int, s2: int, j: int| 0 <= s1 < 4 && 0 <= s2 < 4 && s1 != s2
        ==> !(#[trigger] t.lands.tiles@[s1].has_tile(j)
            && #[trigger] t.lands.tiles@[s2].has_tile(j))
}

/// A wall of pairwise distinct tiles has a repetition-free live stretch.
proof fn lemma_live_distinct(w: crate::table::Wall)
    requires
        w.wf(),
        w.distinct(),
    ensures
        forall|k1: int, k2: int| 0 <= k1 < k2 < w.len_spec()
            ==> (#[trigger] w.live_seq()[k1]).0 != (#[trigger] w.live_seq()[k2]).0,
{
    assert forall|k1: int, k2: int| 0 <= k1 < k2 < w.len_spec() implies
        (#[trigger] w.live_seq()[k1]).0 != (#[trigger] w.live_seq()[k2]).0 by {
        let r = w.ridge as int;
        assert((r + k1) % 136 != (r + k2) % 136 && 0 <= (r + k1) % 136 < 136
            && 0 <= (r + k2) % 136 < 136) by (nonlinear_arith)
            requires 0 <= r < 136, 0 <= k1 < k2 < 136;
        let p1 = (r + k1) % 136;
        let p2 = (r + k2) % 136;
        if p1 < p2 {
            assert(w.tiles@[p1].0 != w.tiles@[p2].0);
        } else {
            assert(w.tiles@[p2].0 != w.tiles@[p1].0);
        }
    }
}

/// Draws `n` live tiles into `wind`'s hand, in wall order.
fn deal_tiles(table: &mut Table, wind: Wind, n: usize)
    requires
        old(table).wf(),
        old(table).wall.distinct(),
        wind.wf(),
        n <= 16,
        old(table).wall.len_spec() >= 14 + n,
        undealt(*old(table)),
        hands_disjoint(*old(table)),
    ensures
        final(table).wf(),
        final(table).wall.distinct(),
        undealt(*final(table)),
        hands_disjoint(*final(table)),
        final(table).wall.tiles@ == old(table).wall.tiles@,
        final(table).wall.ridge == old(table).wall.ridge,
        final(table).wall.len_spec() == old(table).wall.len_spec() - n,
        final(table).lands.tiles@[wind.0 as int].total()
            == old(table).lands.tiles@[wind.0 as int].total() + n,
        forall|s: int| 0 <= s < 4 && s != wind.0 as int ==> final(table).lands.tiles@[s]
            == old(table).lands.tiles@[s],
        final(table).rivers == old(table).rivers,
        final(table).lands.melds == old(table).lands.melds,
{
    let wid = wind.id();
    for j in 0..n
        invariant
            table.wf(),
            table.wall.distinct(),
            undealt(*table),
            hands_disjoint(*table),
            wind.wf(),
            wid == wind.0 as int,
            n <= 16,
            table.wall.tiles@ == old(table).wall.tiles@,
            table.wall.ridge == old(table).wall.ridge,
            table.wall.len_spec() == old(table).wall.len_spec() - j,
            old(table).wall.len_spec() >= 14 + n,
            table.lands.tiles@[wid as int].total()
                == old(table).lands.tiles@[wid as int].total() + j,
            forall|s: int| 0 <= s < 4 && s != wid as int ==> table.lands.tiles@[s]
                == old(table).lands.tiles@[s],
            table.rivers == old(table).rivers,
            table.lands.melds == old(table).lands.melds,
    {
        let ghost pre = *table;
        proof {
            lemma_live_distinct(pre.wall);
        }
        let got = table.draw_tile();
        let tile = match got {
            Some(t) => t,
            None => {
                proof {
                    assert(false);
                }
                return ;
            },
        };
        let mut h = table.lands.tiles[wid].clone();
        proof {
            assert(!pre.lands.tiles@[wid as int].has_tile(tile.0 as int));
        }
        h.add(tile);
        table.lands.tiles.set(wid, h);
        proof {
            let len2 = table.wall.len_spec();
            assert forall|s: int, k: int| 0 <= s < 4 && 0 <= k < len2 implies
                !(#[trigger] table.lands.tiles@[s].has_tile(table.wall.live_seq()[k].0 as int))
                by {
                assert(table.wall.live_seq()[k] == pre.wall.live_seq()[k]);
                assert(!pre.lands.tiles@[s].has_tile(pre.wall.live_seq()[k].0 as int));
                assert(pre.wall.live_seq()[k].0 != tile.0);
            }
            assert forall|s1: int, s2: int, j: int| 0 <= s1 < 4 && 0 <= s2 < 4 && s1 != s2
                implies !(#[trigger] table.lands.tiles@[s1].has_tile(j)
                    && #[trigger] table.lands.tiles@[s2].has_tile(j)) by {
                if s1 != wid as int && s2 != wid as int {
                    assert(!(pre.lands.tiles@[s1].has_tile(j)
                        && pre.lands.tiles@[s2].has_tile(j)));
                } else if 0 <= j < 136 {
                    let other = if s1 == wid as int { s2 } else { s1 };
                    if j == tile.0 as int {
                        assert(!pre.lands.tiles@[other].has_tile(j));
                    } else {
                        assert(!(pre.lands.tiles@[s1].has_tile(j)
                            && pre.lands.tiles@[s2].has_tile(j)));
                    }
                }
            }
        }
    }
}

/// Shuffles, breaks the wall at the dice throw, and deals the four starting
/// hands: three rounds of four tiles to each seat in turn order, then one
/// more tile each, thirteen in all, leaving the rest of the wall live.
pub fn init_table(table: &mut Table) -> (r: Dice)
    requires
        old(table).wf(),
        old(table).wall.distinct(),
    ensures
        final(table).wf(),
        final(table).wall.distinct(),
        r.wf(),
        forall|s: int| 0 <= s < 4 ==> (#[trigger] final(table).lands.tiles@[s]).total() == 13,
        hands_disjoint(*final(table)),
        final(table).wall.len_spec() == 84,
        final(table).wall.ridge == (r.0 as int % 6 + r.0 as int / 6 + 2) * 32 % 136,
        final(table).rivers.tiles@.len() == 0,
        final(table).lands.melds.melds@.len() == 0,
        undealt(*final(table)),
{
    table.shuffle_tiles();
    let dice = Dice::new();
    table.break_tiles(dice.sum());
    let ghost base = *table;
    proof {
        assert forall|s: int, k: int| 0 <= s < 4 && 0 <= k < base.wall.len_spec() implies
            !(#[trigger] base.lands.tiles@[s].has_tile(base.wall.live_seq()[k].0 as int)) by {}
    }
    for round in 0..3usize
        invariant
            table.wf(),
            table.wall.distinct(),
            undealt(*table),
            hands_disjoint(*table),
            table.wall.ridge == (dice.0 as int % 6 + dice.0 as int / 6 + 2) * 32 % 136,
            table.wall.len_spec() == 136 - 16 * round,
            forall|s: int| 0 <= s < 4 ==> (#[trigger] table.lands.tiles@[s]).total()
                == 4 * round,
            table.rivers.tiles@.len() == 0,
            table.lands.melds.melds@.len() == 0,
    {
        for w in 0..4usize
            invariant
                table.wf(),
                table.wall.distinct(),
                undealt(*table),
                hands_disjoint(*table),
                table.wall.ridge == (dice.0 as int % 6 + dice.0 as int / 6 + 2) * 32 % 136,
                round < 3,
                table.wall.len_spec() == 136 - 16 * round - 4 * w,
                forall|s: int| 0 <= s < 4 ==> (#[trigger] table.lands.tiles@[s]).total()
                    == 4 * round + if s < w { 4int } else { 0int },
                table.rivers.tiles@.len() == 0,
                table.lands.melds.melds@.len() == 0,
        {
            deal_tiles(table, Wind::from_id(w), 4);
        }
    }
    for w in 0..4usize
        invariant
            table.wf(),
            table.wall.distinct(),
            undealt(*table),
            hands_disjoint(*table),
            table.wall.ridge == (dice.0 as int % 6 + dice.0 as int / 6 + 2) * 32 % 136,
            table.wall.len_spec() == 88 - w,
            forall|s: int| 0 <= s < 4 ==> (#[trigger] table.lands.tiles@[s]).total()
                == 12 + if s < w { 1int } else { 0int },
            table.rivers.tiles@.len() == 0,
            table.lands.melds.melds@.len() == 0,
    {
        deal_tiles(table, Wind::from_id(w), 1);
    }
    dice
}

} // verus!
