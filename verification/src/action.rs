//! Player commands: the choices a seat may announce on its own turn, the
//! claims it may raise on another seat's discard, and the priority-ordered
//! pool that resolves concurrent claims.

use vstd::prelude::*;

use crate::table::Wind;
use crate::tile::{parse_spec, Figure};

verus! {

/// Why a command failed to parse.  All such failures are local: the engine
/// asks the same seat again.
#[derive(Copy, Clone, Debug, PartialEq, Eq, Structural)]
pub enum ParseError {
    /// The input held no token at all.
    NoCommand,
    /// The first token is no known command.
    UnknownCommand,
    /// The command wanted a tile glyph and got none.
    MissingArgument,
    /// The argument is not a tile glyph.
    BadFigure,
}

/// Blanks that separate command tokens.
pub open spec fn is_space(c: char) -> bool {
    c == ' ' || c == '\t' || c == '\r' || c == '\n'
}

/// The first position at or after `i` holding a non-blank, or the end.
pub open spec fn skip_spaces(s: Seq<char>, i: int) -> int
    decreases s.len() - i,
{
    if i < 0 || i >= s.len() {
        s.len() as int
    } else if is_space(s[i]) {
        skip_spaces(s, i + 1)
    } else {
        i
    }
}

/// The first position at or after `i` holding a blank, or the end.
pub open spec fn token_end(s: Seq<char>, i: int) -> int
    decreases s.len() - i,
{
    if i < 0 || i >= s.len() {
        s.len() as int
    } else if !is_space(s[i]) {
        token_end(s, i + 1)
    } else {
        i
    }
}

/// The first whitespace-separated token at or after `i`, and where the
/// input continues after it.
pub open spec fn token_at(s: Seq<char>, i: int) -> (Seq<char>, int) {
    let a = skip_spaces(s, i);
    let b = token_end(s, a);
    (s.subrange(a, b), b)
}

proof fn lemma_skip_spaces_bounds(s: Seq<char>, i: int)
    requires
        0 <= i <= s.len(),
    ensures
        i <= skip_spaces(s, i) <= s.len(),
        i <= token_end(s, i) <= s.len(),
    decreases s.len() - i,
{
    if i < s.len() {
        lemma_skip_spaces_bounds(s, i + 1);
    }
}

/// A choice made by the seat whose turn it is.
#[derive(Copy, Clone, Debug, PartialEq, Eq, Structural)]
pub enum Choice {
    /// Discard the tile just drawn, optionally declaring ready.
    DrawAndDiscard { riichi: bool },
    /// Discard a named tile from the hand, optionally declaring ready.
    Discard { figure: Figure, riichi: bool },
    /// Declare a quad of the named figure.
    Kong(Figure),
    /// Abort the hand on a nine-terminals starting hand.
    NineTerminals,
    /// Declare a self-drawn win.
    Mahjong,
}

impl Default for Choice {
    /// The fallback when a seat gives no usable command: discard the drawn
    /// tile.
    fn default() -> (r: Self)
        ensures
            r == (Choice::DrawAndDiscard { riichi: false }),
    {
        Choice::DrawAndDiscard { riichi: false }
    }
}

/// What parsing a turn command yields.
pub open spec fn choice_parse_spec(s: Seq<char>) -> Result<Choice, ParseError> {
    let (tok, rest) = token_at(s, 0);
    let (arg, _) = token_at(s, rest);
    if tok.len() == 0 {
        Err(ParseError::NoCommand)
    } else if tok == "NineTerminals"@ {
        Ok(Choice::NineTerminals)
    } else if tok == "Mahjong"@ {
        Ok(Choice::Mahjong)
    } else if tok == "Discard"@ || tok == "Riichi"@ {
        let riichi = tok == "Riichi"@;
        if arg.len() == 0 {
            Ok(Choice::DrawAndDiscard { riichi })
        } else if parse_spec(arg) is Some {
            Ok(Choice::Discard { figure: parse_spec(arg)->0, riichi })
        } else {
            Err(ParseError::BadFigure)
        }
    } else if tok == "Kong"@ {
        if arg.len() == 0 {
            Err(ParseError::MissingArgument)
        } else if parse_spec(arg) is Some {
            Ok(Choice::Kong(parse_spec(arg)->0))
        } else {
            Err(ParseError::BadFigure)
        }
    } else {
        Err(ParseError::UnknownCommand)
    }
}

/// The characters of `s`, one by one.
fn chars_of(s: &str) -> (r: Vec<char>)
    ensures
        r@ == s@,
{
    let n = s.unicode_len();
    let mut v: Vec<char> = Vec::new();
    for i in 0..n
        invariant
            n == s@.len(),
            v@.len() == i,
            forall|j: int| 0 <= j < i ==> v@[j] == s@[j],
    {
        v.push(s.get_char(i));
    }
    proof {
        assert(v@ =~= s@);
    }
    v
}

fn is_space_char(c: char) -> (r: bool)
    ensures
        r == is_space(c),
{
    c == ' ' || c == '\t' || c == '\r' || c == '\n'
}

/// The bounds of the first token at or after `i`.
fn find_token(cs: &Vec<char>, i: usize) -> (r: (usize, usize))
    requires
        i <= cs@.len(),
    ensures
        r.0 == skip_spaces(cs@, i as int),
        r.1 == token_end(cs@, r.0 as int),
        i <= r.0 <= r.1 <= cs@.len(),
    {
    let n = cs.len();
    let mut a = i;
    while a < n && is_space_char(cs[a])
        invariant
            i <= a <= n,
            n == cs@.len(),
            skip_spaces(cs@, i as int) == skip_spaces(cs@, a as int),
        decreases n - a,
    {
        a = a + 1;
    }
    let mut b = a;
    while b < n && !is_space_char(cs[b])
        invariant
            a <= b <= n,
            n == cs@.len(),
            token_end(cs@, a as int) == token_end(cs@, b as int),
        decreases n - b,
    {
        b = b + 1;
    }
    (a, b)
}

/// Whether the characters of `cs` between `start` and `end` spell `kw`.
fn tok_eq(cs: &Vec<char>, start: usize, end: usize, kw: &str) -> (r: bool)
    requires
        start <= end <= cs@.len(),
    ensures
        r == (cs@.subrange(start as int, end as int) == kw@),
{
    let n = kw.unicode_len();
    if end - start != n {
        proof {
            assert(cs@.subrange(start as int, end as int).len() != kw@.len());
        }
        return false;
    }
    for i in 0..n
        invariant
            n == kw@.len(),
            start + n == end,
            end <= cs@.len(),
            forall|j: int| 0 <= j < i ==> cs@[start + j] == kw@[j],
    {
        if cs[start + i] != kw.get_char(i) {
            proof {
                assert(cs@.subrange(start as int, end as int)[i as int] != kw@[i as int]);
            }
            return false;
        }
    }
    proof {
        assert(cs@.subrange(start as int, end as int) =~= kw@);
    }
    true
}

/// Parses the slice between `start` and `end` as a figure glyph.
fn figure_of_token(cs: &Vec<char>, start: usize, end: usize) -> (r: Option<Figure>)
    requires
        start <= end <= cs@.len(),
    ensures
        r == parse_spec(cs@.subrange(start as int, end as int)),
        r is Some ==> (r->0).wf(),
{
    if end - start == 1 {
        let got = Figure::parse_char(cs[start]);
        proof {
            assert(cs@.subrange(start as int, end as int) =~= seq![cs@[start as int]]);
        }
        got
    } else {
        None
    }
}

impl Choice {
    /// Parses one turn command: a keyword, possibly followed by one tile
    /// glyph.  Tokens are separated by blanks; what follows the recognized
    /// tokens is ignored.
    pub fn parse(s: &str) -> (r: Result<Choice, ParseError>)
        ensures
            r == choice_parse_spec(s@),
    {
        let cs = chars_of(s);
        let (t0, t1) = find_token(&cs, 0);
        let (a0, a1) = find_token(&cs, t1);
        proof {
            lemma_skip_spaces_bounds(s@, 0);
            lemma_skip_spaces_bounds(s@, t0 as int);
            lemma_skip_spaces_bounds(s@, t1 as int);
            lemma_skip_spaces_bounds(s@, a0 as int);
        }
        if t1 - t0 == 0 {
            Err(ParseError::NoCommand)
        } else if tok_eq(&cs, t0, t1, "NineTerminals") {
            Ok(Choice::NineTerminals)
        } else if tok_eq(&cs, t0, t1, "Mahjong") {
            Ok(Choice::Mahjong)
        } else if tok_eq(&cs, t0, t1, "Discard") || tok_eq(&cs, t0, t1, "Riichi") {
            let riichi = tok_eq(&cs, t0, t1, "Riichi");
            if a1 - a0 == 0 {
                Ok(Choice::DrawAndDiscard { riichi })
            } else {
                match figure_of_token(&cs, a0, a1) {
                    Some(figure) => Ok(Choice::Discard { figure, riichi }),
                    None => Err(ParseError::BadFigure),
                }
            }
        } else if tok_eq(&cs, t0, t1, "Kong") {
            if a1 - a0 == 0 {
                Err(ParseError::MissingArgument)
            } else {
                match figure_of_token(&cs, a0, a1) {
                    Some(figure) => Ok(Choice::Kong(figure)),
                    None => Err(ParseError::BadFigure),
                }
            }
        } else {
            Err(ParseError::UnknownCommand)
        }
    }
}

/// A response to another seat's discard, in strict priority order: a win
/// outranks a quad call, which outranks a triplet call, which outranks a
/// run call; passing never wins.
#[derive(Copy, Clone, Debug, PartialEq, Eq, Structural)]
pub struct Claim(pub u8);

impl Claim {
    /// Number of claim kinds that contend (passing does not).
    pub const N: usize = 4;

    pub open spec fn wf(self) -> bool {
        self.0 <= 4
    }

    /// A win off the discard: the highest priority.
    pub fn mahjong() -> (r: Self)
        ensures
            r.0 == 0,
    {
        Claim(0)
    }

    /// A quad call.
    pub fn kong() -> (r: Self)
        ensures
            r.0 == 1,
    {
        Claim(1)
    }

    /// A triplet call.
    pub fn pung() -> (r: Self)
        ensures
            r.0 == 2,
    {
        Claim(2)
    }

    /// A run call: the lowest contending priority.
    pub fn chow() -> (r: Self)
        ensures
            r.0 == 3,
    {
        Claim(3)
    }

    /// A pass.
    pub fn through() -> (r: Self)
        ensures
            r.0 == 4,
    {
        Claim(4)
    }

    /// Total constructor over the four contending kinds.
    pub fn from_id(id: usize) -> (r: Self)
        ensures
            r.0 == id as int % 4,
            r.wf(),
    {
        Claim((id % Self::N) as u8)
    }

    pub fn id(self) -> (r: usize)
        ensures
            r == self.0 as int,
    {
        self.0 as usize
    }
}

impl Default for Claim {
    /// An unusable or missing response counts as a pass.
    fn default() -> (r: Self)
        ensures
            r.0 == 4,
    {
        Claim(4)
    }
}

/// What parsing a claim command yields.
pub open spec fn claim_parse_spec(s: Seq<char>) -> Result<Claim, ParseError> {
    let (tok, _) = token_at(s, 0);
    if tok.len() == 0 {
        Err(ParseError::NoCommand)
    } else if tok == "Mahjong"@ {
        Ok(Claim(0))
    } else if tok == "Kong"@ {
        Ok(Claim(1))
    } else if tok == "Pung"@ {
        Ok(Claim(2))
    } else if tok == "Chow"@ {
        Ok(Claim(3))
    } else if tok == "Through"@ {
        Ok(Claim(4))
    } else {
        Err(ParseError::UnknownCommand)
    }
}

impl Claim {
    /// Parses one claim keyword.
    pub fn parse(s: &str) -> (r: Result<Claim, ParseError>)
        ensures
            r == claim_parse_spec(s@),
            r is Ok ==> (r->Ok_0).wf(),
    {
        let cs = chars_of(s);
        let (t0, t1) = find_token(&cs, 0);
        proof {
            lemma_skip_spaces_bounds(s@, 0);
            lemma_skip_spaces_bounds(s@, t0 as int);
        }
        if t1 - t0 == 0 {
            Err(ParseError::NoCommand)
        } else if tok_eq(&cs, t0, t1, "Mahjong") {
            Ok(Claim(0))
        } else if tok_eq(&cs, t0, t1, "Kong") {
            Ok(Claim(1))
        } else if tok_eq(&cs, t0, t1, "Pung") {
            Ok(Claim(2))
        } else if tok_eq(&cs, t0, t1, "Chow") {
            Ok(Claim(3))
        } else if tok_eq(&cs, t0, t1, "Through") {
            Ok(Claim(4))
        } else {
            Err(ParseError::UnknownCommand)
        }
    }
}

/// The lowest set bit position of `x` at or after `i`, or 12 if none below
/// twelve.
pub open spec fn lowest_from(x: u16, i: int) -> int
    decreases 12 - i,
{
    if i < 0 || i >= 12 {
        12
    } else if (x >> (i as u16)) & 1 == 1 {
        i
    } else {
        lowest_from(x, i + 1)
    }
}

proof fn lemma_lowest_from(x: u16, i: int)
    requires
        0 <= i <= 12,
    ensures
        i <= lowest_from(x, i) <= 12,
        lowest_from(x, i) < 12 ==> (x >> (lowest_from(x, i) as u16)) & 1 == 1,
        forall|j: int| i <= j < lowest_from(x, i) ==> #[trigger] ((x >> (j as u16)) & 1) != 1,
        forall|j: int| i <= j < 12 && #[trigger] ((x >> (j as u16)) & 1) == 1
            ==> lowest_from(x, i) <= j,
    decreases 12 - i,
{
    if i < 12 {
        lemma_lowest_from(x, i + 1);
    }
}

/// The claims the three opponents of one discarder have raised, packed by
/// priority: bit `3c + n` stands for claim kind `c` by the opponent `n + 1`
/// seats clockwise of the discarder.  Lower bits outrank higher ones.
#[derive(Debug)]
pub struct Claims {
    pub claims: u16,
    pub claimee: Wind,
}

impl Claims {
    pub open spec fn wf(self) -> bool {
        &&& self.claimee.wf()
        &&& self.claims >> 12 == 0
    }

    /// Whether claim kind `c` was raised by the opponent `n + 1` seats
    /// clockwise of the discarder.
    pub open spec fn has_claim(self, c: int, n: int) -> bool {
        0 <= c < 4 && 0 <= n < 3 && (self.claims >> ((3 * c + n) as u16)) & 1 == 1
    }

    /// An empty pool for the given discarder.
    pub fn new(claimee: Wind) -> (r: Self)
        requires
            claimee.wf(),
        ensures
            r.wf(),
            r.claims == 0,
            r.claimee == claimee,
            forall|c: int, n: int| !r.has_claim(c, n),
    {
        proof {
            assert((forall|s: u16| #[trigger] ((0u16 >> s) & 1) != 1) && 0u16 >> 12 == 0)
                by (bit_vector);
        }
        Claims { claims: 0, claimee }
    }

    /// Records `claimer`'s claim.  A pass records nothing.  A seat cannot
    /// claim its own discard.
    pub fn add(&mut self, claim: Claim, claimer: Wind)
        requires
            old(self).wf(),
            claim.wf(),
            claimer.wf(),
            claimer.0 != old(self).claimee.0,
        ensures
            final(self).wf(),
            final(self).claimee == old(self).claimee,
            claim.0 == 4 ==> *final(self) == *old(self),
            claim.0 < 4 ==> {
                let n = (claimer.0 + 3 - old(self).claimee.0) as int % 4;
                &&& final(self).has_claim(claim.0 as int, n)
                &&& forall|c: int, n2: int| 0 <= c < 4 && 0 <= n2 < 3
                    && (c != claim.0 as int || n2 != n) ==> final(self).has_claim(c, n2)
                    == old(self).has_claim(c, n2)
            },
    {
        let nth = (claimer.id() + 3 - self.claimee.id()) % 4;
        if claim.id() != 4 {
            let x = self.claims;
            let c = claim.0 as u16;
            let n = nth as u16;
            let y = x | (1u16 << (3 * c + n));
            proof {
                assert(claimer.0 + 3 - old(self).claimee.0 >= 0);
                assert(n < 3) by {
                    assert((claimer.0 + 3 - old(self).claimee.0) as int % 4 < 3);
                }
                assert({
                    &&& (y >> (3 * c + n)) & 1 == 1
                    &&& (forall|s: u16| s < 12 && s != 3 * c + n ==> #[trigger] ((y >> s) & 1)
                        == (x >> s) & 1)
                    &&& y >> 12 == 0
                }) by (bit_vector)
                    requires c < 4, n < 3, x >> 12 == 0, y == x | (1u16 << (3 * c + n));
                assert forall|cc: int, n2: int| 0 <= cc < 4 && 0 <= n2 < 3
                    && (cc != claim.0 as int || n2 != nth as int) implies
                    Claims { claims: y, claimee: self.claimee }.has_claim(cc, n2)
                    == old(self).has_claim(cc, n2) by {
                    assert(((y >> ((3 * cc + n2) as u16)) & 1) == (x >> ((3 * cc + n2) as u16))
                        & 1);
                }
            }
            self.claims = y;
        }
    }

    pub fn is_empty(&self) -> (r: bool)
        ensures
            r == (self.claims == 0),
    {
        self.claims == 0
    }

    /// Takes out the winning claim: the highest-priority kind wins, and
    /// among equal kinds the claimer nearest the discarder clockwise.
    pub fn next(&mut self) -> (r: Option<(Claim, Wind)>)
        requires
            old(self).wf(),
        ensures
            final(self).wf(),
            final(self).claimee == old(self).claimee,
            old(self).claims == 0 ==> r is None && *final(self) == *old(self),
            old(self).claims != 0 ==> r is Some && {
                let (c, w) = r->0;
                let i = lowest_from(old(self).claims, 0);
                &&& i < 12
                &&& c.0 == i / 3
                &&& c.wf()
                &&& w.0 == (old(self).claimee.0 + i % 3 + 1) % 4
                &&& w.wf()
                &&& old(self).has_claim(i / 3, i % 3)
                &&& forall|c2: int, n2: int| old(self).has_claim(c2, n2) ==> i <= 3 * c2 + n2
                &&& !final(self).has_claim(i / 3, i % 3)
                &&& forall|c2: int, n2: int| 0 <= c2 < 4 && 0 <= n2 < 3
                    && 3 * c2 + n2 != i ==> final(self).has_claim(c2, n2)
                    == old(self).has_claim(c2, n2)
            },
    {
        let x = self.claims;
        if x != 0 {
            let z = x.trailing_zeros();
            proof {
                broadcast use vstd::std_specs::bits::group_bits_axioms;

                assert(x << (16 - z) as u16 == 0);
            }
            let t = x & (x - 1);
            proof {
                let z16 = z as u16;
                assert({
                    &&& z16 < 12
                    &&& (t >> z16) & 1 != 1
                    &&& (forall|s: u16| s < 12 && s != z16 ==> #[trigger] ((t >> s) & 1)
                        == (x >> s) & 1)
                    &&& (forall|s: u16| s < z16 ==> #[trigger] ((x >> s) & 1) != 1)
                    &&& t >> 12 == 0
                }) by (bit_vector)
                    requires
                        x != 0,
                        x >> 12 == 0,
                        z16 < 16,
                        (x >> z16) & 1 == 1,
                        x << (16 - z16) as u16 == 0,
                        t == x & ((x - 1) as u16);
                lemma_lowest_from(x, 0);
                assert(lowest_from(x, 0) == z as int) by {
                    assert((x >> (z as u16)) & 1 == 1);
                }
                assert forall|c2: int, n2: int| old(self).has_claim(c2, n2) implies
                    z as int <= 3 * c2 + n2 by {
                    assert((x >> ((3 * c2 + n2) as u16)) & 1 == 1);
                }
            }
            self.claims = t;
            let claim = Claim::from_id((z as usize) / 3);
            let nth = (z as usize) % 3;
            let claimer = self.claimee.nth(nth + 1);
            proof {
                assert(z as int / 3 < 4);
            }
            Some((claim, claimer))
        } else {
            None
        }
    }
}

} // verus!
