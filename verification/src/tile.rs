//! Tile identifiers and packed multisets.
//!
//! A physical tile is one of 136 pieces; its face value ("figure") is one of
//! 34, four physical copies each.  A figure is a (suit, rank) pair: three
//! numeral suits of nine ranks and one honor suit of seven symbols.

use vstd::prelude::*;

verus! {

/// One physical piece, identified by its position in the 136-element universe.
#[must_use]
#[derive(Copy, Clone, Debug, PartialEq, Eq, Structural)]
pub struct Tile(pub u8);

/// A face value: one of 34, ignoring which physical copy.
#[derive(Copy, Clone, Debug, PartialEq, Eq, Structural)]
pub struct Figure(pub u8);

/// One of the three numeral families or the honor family.
#[derive(Copy, Clone, Debug, PartialEq, Eq, Structural)]
pub struct Suit(pub u8);

/// 1-9 within a numeral suit (stored 0-based); symbolic position for honors.
#[derive(Copy, Clone, Debug, PartialEq, Eq, Structural)]
pub struct Rank(pub u8);

/// A rank together with a copy index: the position of a tile within its suit.
#[derive(Copy, Clone, Debug, PartialEq, Eq, Structural)]
pub struct RankSpec(pub u8);

impl Tile {
    /// Number of physical tiles.
    pub const N: usize = 136;

    pub open spec fn wf(self) -> bool {
        self.0 < 136
    }

    pub fn id(&self) -> (r: usize)
        ensures
            r == self.0 as int,
    {
        self.0 as usize
    }

    /// Total constructor: the index is reduced modulo the domain size.
    pub fn from_id(id: usize) -> (r: Self)
        ensures
            r.0 == id as int % 136,
            r.wf(),
    {
        Tile((id % Self::N) as u8)
    }

    /// All 136 tiles in identifier order.
    pub fn mk_iter() -> (r: Vec<Self>)
        ensures
            r@.len() == 136,
            forall|i: int| 0 <= i < 136 ==> (#[trigger] r@[i]).0 == i,
    {
        let mut v: Vec<Tile> = Vec::new();
        for i in 0..Self::N
            invariant
                v@.len() == i,
                forall|j: int| 0 <= j < i ==> (#[trigger] v@[j]).0 == j,
        {
            v.push(Tile::from_id(i));
        }
        v
    }

    pub fn suit(&self) -> (r: Suit)
        requires
            self.wf(),
        ensures
            r.0 == self.0 / 4 / 9,
            r.wf(),
    {
        self.figure().suit()
    }

    pub fn rank(&self) -> (r: Rank)
        requires
            self.wf(),
        ensures
            r.0 == self.0 / 4 % 9,
            r.wf(),
    {
        self.figure().rank()
    }

    /// The face value: four consecutive identifiers share one figure.
    pub fn figure(&self) -> (r: Figure)
        requires
            self.wf(),
        ensures
            r.0 == self.0 / 4,
            r.wf(),
    {
        Figure(self.0 / 4)
    }

    /// The copy index (0-3) distinguishing the four pieces of one figure.
    pub fn spec(&self) -> (r: usize)
        ensures
            r == self.0 as int % 4,
            r < 4,
    {
        (self.0 % 4) as usize
    }

    pub fn rankspec(&self) -> (r: RankSpec)
        requires
            self.wf(),
        ensures
            r.0 == self.0 as int % 36,
            r.wf(),
    {
        let rs = RankSpec::from_rankspec(self.rank(), self.spec());
        proof {
            let t = self.0 as int;
            assert((t / 4 % 9) * 4 + t % 4 == t % 36) by (nonlinear_arith)
                requires 0 <= t < 136;
        }
        rs
    }

    pub fn from_suit_rankspec(suit: Suit, rankspec: RankSpec) -> (r: Tile)
        requires
            suit.wf(),
            rankspec.wf(),
        ensures
            r.0 == (suit.0 * 36 + rankspec.0) as int % 136,
            r.wf(),
    {
        Tile::from_id(suit.id() * 36 + rankspec.id())
    }
}

impl RankSpec {
    pub open spec fn wf(self) -> bool {
        self.0 < 36
    }

    pub fn id(&self) -> (r: usize)
        ensures
            r == self.0 as int,
    {
        self.0 as usize
    }

    /// Total constructor: the index is reduced modulo the domain size.
    pub fn from_id(id: usize) -> (r: Self)
        ensures
            r.0 == id as int % 36,
            r.wf(),
    {
        RankSpec((id % 36) as u8)
    }

    pub fn from_rankspec(rank: Rank, spec: usize) -> (r: Self)
        requires
            rank.wf(),
            spec < 4,
        ensures
            r.0 == rank.0 * 4 + spec,
            r.wf(),
    {
        RankSpec::from_id(rank.id() * 4 + spec)
    }
}

/// The canonical single-glyph rendering of the figure with identifier `i`.
///
/// Identifiers 0-8 are the character suit, 9-17 the bamboos, 18-26 the
/// circles, 27-33 the honors (four winds, then three dragons).
pub open spec fn glyph_char(i: int) -> char {
    if i == 0 { '\u{1F007}' }
    else if i == 1 { '\u{1F008}' }
    else if i == 2 { '\u{1F009}' }
    else if i == 3 { '\u{1F00A}' }
    else if i == 4 { '\u{1F00B}' }
    else if i == 5 { '\u{1F00C}' }
    else if i == 6 { '\u{1F00D}' }
    else if i == 7 { '\u{1F00E}' }
    else if i == 8 { '\u{1F00F}' }
    else if i == 9 { '\u{1F010}' }
    else if i == 10 { '\u{1F011}' }
    else if i == 11 { '\u{1F012}' }
    else if i == 12 { '\u{1F013}' }
    else if i == 13 { '\u{1F014}' }
    else if i == 14 { '\u{1F015}' }
    else if i == 15 { '\u{1F016}' }
    else if i == 16 { '\u{1F017}' }
    else if i == 17 { '\u{1F018}' }
    else if i == 18 { '\u{1F019}' }
    else if i == 19 { '\u{1F01A}' }
    else if i == 20 { '\u{1F01B}' }
    else if i == 21 { '\u{1F01C}' }
    else if i == 22 { '\u{1F01D}' }
    else if i == 23 { '\u{1F01E}' }
    else if i == 24 { '\u{1F01F}' }
    else if i == 25 { '\u{1F020}' }
    else if i == 26 { '\u{1F021}' }
    else if i == 27 { '\u{1F000}' }
    else if i == 28 { '\u{1F001}' }
    else if i == 29 { '\u{1F002}' }
    else if i == 30 { '\u{1F003}' }
    else if i == 31 { '\u{1F004}' }
    else if i == 32 { '\u{1F005}' }
    else { '\u{1F006}' }
}

/// What parsing one character yields: the figure whose glyph it is, if any.
pub open spec fn parse_char_spec(c: char) -> Option<Figure> {
    if exists|i: int| 0 <= i < 34 && glyph_char(i) == c {
        Some(Figure((choose|i: int| 0 <= i < 34 && glyph_char(i) == c) as u8))
    } else {
        None
    }
}

/// What parsing a whole string yields: a single recognized glyph, or nothing.
pub open spec fn parse_spec(s: Seq<char>) -> Option<Figure> {
    if s.len() == 1 {
        parse_char_spec(s[0])
    } else {
        None
    }
}

/// The 34 glyphs are pairwise distinct, so a glyph names its figure uniquely.
pub proof fn lemma_glyph_injective(i: int, j: int)
    requires
        0 <= i < 34,
        0 <= j < 34,
        glyph_char(i) == glyph_char(j),
    ensures
        i == j,
{
}

/// A character that is no figure's glyph parses to nothing, and so does any
/// input that is not exactly one character.
pub proof fn lemma_parse_unknown(s: Seq<char>)
    requires
        forall|i: int| 0 <= i < 34 ==> glyph_char(i) != s[0],
    ensures
        parse_spec(s) is None,
{
}

/// Round trip: rendering any of the 34 figures and parsing the glyph back
/// returns that same figure.
pub proof fn lemma_parse_round_trip(f: Figure)
    requires
        f.wf(),
    ensures
        parse_spec(seq![glyph_char(f.0 as int)]) == Some(f),
{
    let i = f.0 as int;
    let s = seq![glyph_char(i)];
    assert(s.len() == 1 && s[0] == glyph_char(i));
    assert(exists|j: int| 0 <= j < 34 && glyph_char(j) == s[0]);
    let j = choose|j: int| 0 <= j < 34 && glyph_char(j) == s[0];
    lemma_glyph_injective(i, j);
}

impl Figure {
    /// Number of face values.
    pub const N: usize = 34;

    pub open spec fn wf(self) -> bool {
        self.0 < 34
    }

    pub fn id(&self) -> (r: usize)
        ensures
            r == self.0 as int,
    {
        self.0 as usize
    }

    /// Total constructor: the index is reduced modulo the domain size.
    pub fn from_id(id: usize) -> (r: Self)
        ensures
            r.0 == id as int % 34,
            r.wf(),
    {
        Figure((id % Self::N) as u8)
    }

    pub fn from_suitrank(s: Suit, r: Rank) -> (f: Self)
        requires
            s.wf(),
            r.wf(),
        ensures
            f.0 == (s.0 * 9 + r.0) as int % 34,
            f.wf(),
    {
        Self::from_id(s.id() * 9 + r.id())
    }

    /// All 34 figures in identifier order.
    pub fn mk_iter() -> (r: Vec<Self>)
        ensures
            r@.len() == 34,
            forall|i: int| 0 <= i < 34 ==> (#[trigger] r@[i]).0 == i,
    {
        let mut v: Vec<Figure> = Vec::new();
        for i in 0..Self::N
            invariant
                v@.len() == i,
                forall|j: int| 0 <= j < i ==> (#[trigger] v@[j]).0 == j,
        {
            v.push(Figure::from_id(i));
        }
        v
    }

    pub fn suit(&self) -> (r: Suit)
        requires
            self.wf(),
        ensures
            r.0 == self.0 / 9,
            r.wf(),
    {
        Suit(self.0 / 9)
    }

    pub fn rank(&self) -> (r: Rank)
        requires
            self.wf(),
        ensures
            r.0 == self.0 % 9,
            r.wf(),
    {
        Rank(self.0 % 9)
    }

    /// The canonical one-glyph text of this figure.
    pub fn show(&self) -> (r: &'static str)
        requires
            self.wf(),
        ensures
            r@ == seq![glyph_char(self.0 as int)],
    {
        let s: &'static str = match self.0 {
            0 => "\u{1F007}",
            1 => "\u{1F008}",
            2 => "\u{1F009}",
            3 => "\u{1F00A}",
            4 => "\u{1F00B}",
            5 => "\u{1F00C}",
            6 => "\u{1F00D}",
            7 => "\u{1F00E}",
            8 => "\u{1F00F}",
            9 => "\u{1F010}",
            10 => "\u{1F011}",
            11 => "\u{1F012}",
            12 => "\u{1F013}",
            13 => "\u{1F014}",
            14 => "\u{1F015}",
            15 => "\u{1F016}",
            16 => "\u{1F017}",
            17 => "\u{1F018}",
            18 => "\u{1F019}",
            19 => "\u{1F01A}",
            20 => "\u{1F01B}",
            21 => "\u{1F01C}",
            22 => "\u{1F01D}",
            23 => "\u{1F01E}",
            24 => "\u{1F01F}",
            25 => "\u{1F020}",
            26 => "\u{1F021}",
            27 => "\u{1F000}",
            28 => "\u{1F001}",
            29 => "\u{1F002}",
            30 => "\u{1F003}",
            31 => "\u{1F004}",
            32 => "\u{1F005}",
            _ => "\u{1F006}",
        };
        proof {
            reveal_strlit("\u{1F007}");
            reveal_strlit("\u{1F008}");
            reveal_strlit("\u{1F009}");
            reveal_strlit("\u{1F00A}");
            reveal_strlit("\u{1F00B}");
            reveal_strlit("\u{1F00C}");
            reveal_strlit("\u{1F00D}");
            reveal_strlit("\u{1F00E}");
            reveal_strlit("\u{1F00F}");
            reveal_strlit("\u{1F010}");
            reveal_strlit("\u{1F011}");
            reveal_strlit("\u{1F012}");
            reveal_strlit("\u{1F013}");
            reveal_strlit("\u{1F014}");
            reveal_strlit("\u{1F015}");
            reveal_strlit("\u{1F016}");
            reveal_strlit("\u{1F017}");
            reveal_strlit("\u{1F018}");
            reveal_strlit("\u{1F019}");
            reveal_strlit("\u{1F01A}");
            reveal_strlit("\u{1F01B}");
            reveal_strlit("\u{1F01C}");
            reveal_strlit("\u{1F01D}");
            reveal_strlit("\u{1F01E}");
            reveal_strlit("\u{1F01F}");
            reveal_strlit("\u{1F020}");
            reveal_strlit("\u{1F021}");
            reveal_strlit("\u{1F000}");
            reveal_strlit("\u{1F001}");
            reveal_strlit("\u{1F002}");
            reveal_strlit("\u{1F003}");
            reveal_strlit("\u{1F004}");
            reveal_strlit("\u{1F005}");
            reveal_strlit("\u{1F006}");
            assert(s@ =~= seq![glyph_char(self.0 as int)]);
        }
        s
    }

    /// Parses one character: the figure whose glyph it is, or nothing.
    pub fn parse_char(c: char) -> (r: Option<Figure>)
        ensures
            r == parse_char_spec(c),
            r is Some ==> r->0.wf(),
    {
        let r: Option<Figure> = match c {
            '\u{1F007}' => Some(Figure(0)),
            '\u{1F008}' => Some(Figure(1)),
            '\u{1F009}' => Some(Figure(2)),
            '\u{1F00A}' => Some(Figure(3)),
            '\u{1F00B}' => Some(Figure(4)),
            '\u{1F00C}' => Some(Figure(5)),
            '\u{1F00D}' => Some(Figure(6)),
            '\u{1F00E}' => Some(Figure(7)),
            '\u{1F00F}' => Some(Figure(8)),
            '\u{1F010}' => Some(Figure(9)),
            '\u{1F011}' => Some(Figure(10)),
            '\u{1F012}' => Some(Figure(11)),
            '\u{1F013}' => Some(Figure(12)),
            '\u{1F014}' => Some(Figure(13)),
            '\u{1F015}' => Some(Figure(14)),
            '\u{1F016}' => Some(Figure(15)),
            '\u{1F017}' => Some(Figure(16)),
            '\u{1F018}' => Some(Figure(17)),
            '\u{1F019}' => Some(Figure(18)),
            '\u{1F01A}' => Some(Figure(19)),
            '\u{1F01B}' => Some(Figure(20)),
            '\u{1F01C}' => Some(Figure(21)),
            '\u{1F01D}' => Some(Figure(22)),
            '\u{1F01E}' => Some(Figure(23)),
            '\u{1F01F}' => Some(Figure(24)),
            '\u{1F020}' => Some(Figure(25)),
            '\u{1F021}' => Some(Figure(26)),
            '\u{1F000}' => Some(Figure(27)),
            '\u{1F001}' => Some(Figure(28)),
            '\u{1F002}' => Some(Figure(29)),
            '\u{1F003}' => Some(Figure(30)),
            '\u{1F004}' => Some(Figure(31)),
            '\u{1F005}' => Some(Figure(32)),
            '\u{1F006}' => Some(Figure(33)),
            _ => None,
        };
        proof {
            if r is Some {
                let i = (r->0).0 as int;
                assert(glyph_char(i) == c);
                let j = choose|j: int| 0 <= j < 34 && glyph_char(j) == c;
                lemma_glyph_injective(i, j);
            } else {
                assert forall|i: int| 0 <= i < 34 implies glyph_char(i) != c by {}
            }
        }
        r
    }

    /// Parses a whole command token: exactly one recognized glyph.
    pub fn parse(s: &str) -> (r: Option<Self>)
        ensures
            r == parse_spec(s@),
            r is Some ==> r->0.wf(),
    {
        if s.unicode_len() == 1 {
            let c = s.get_char(0);
            Self::parse_char(c)
        } else {
            None
        }
    }
}

/// The kind of a committed group: run, triplet, quad, or upgraded quad.
#[derive(Copy, Clone, Debug, PartialEq, Eq, Structural)]
pub struct Shape(pub u8);

impl Shape {
    pub open spec fn wf(self) -> bool {
        self.0 < 4
    }

    /// A run of three consecutive ranks.
    pub fn chow() -> (r: Self)
        ensures
            r.0 == 0,
    {
        Shape(0)
    }

    /// A triplet.
    pub fn pung() -> (r: Self)
        ensures
            r.0 == 1,
    {
        Shape(1)
    }

    /// A quad.
    pub fn kong() -> (r: Self)
        ensures
            r.0 == 2,
    {
        Shape(2)
    }

    /// A triplet later upgraded to a quad.
    pub fn added_kong() -> (r: Self)
        ensures
            r.0 == 3,
    {
        Shape(3)
    }

    pub fn id(self) -> (r: usize)
        ensures
            r == self.0 as int,
    {
        self.0 as usize
    }

    /// Total constructor: the index is reduced modulo the domain size.
    pub fn from_id(id: usize) -> (r: Self)
        ensures
            r.0 == id as int % 4,
            r.wf(),
    {
        Shape((id % 4) as u8)
    }
}

/// A committed group packed into one byte: shape tag in the top two bits,
/// representative figure in the low six.
#[derive(Copy, Clone, Debug, PartialEq, Eq, Structural)]
pub struct Group(pub u8);

impl Group {
    pub open spec fn wf(self) -> bool {
        self.0 & 0x3f < 34
    }

    pub fn raw(self) -> (r: usize)
        ensures
            r == self.0 as int,
    {
        self.0 as usize
    }

    pub fn from_raw(raw: usize) -> (r: Self)
        ensures
            r.0 == raw as u8,
    {
        proof {
            assert((raw & 0xff) as u8 == raw as u8) by (bit_vector);
        }
        Group(#[verifier::truncate] ((raw & 0xff) as u8))
    }

    pub fn from_shape_figure(shape: Shape, figure: Figure) -> (r: Self)
        requires
            shape.wf(),
            figure.wf(),
        ensures
            r.0 == shape.0 * 64 + figure.0,
            r.shape_spec() == shape,
            r.figure_spec() == figure,
            r.wf(),
    {
        let r = Group::from_raw((shape.id() << 6) | figure.id());
        proof {
            let s = shape.0;
            let f = figure.0;
            assert(((s as usize) << 6 | f as usize) as u8 == s * 64 + f
                && (s * 64 + f) as u8 >> 6 == s
                && ((s * 64 + f) as u8 & 0x3f) == f) by (bit_vector)
                requires s < 4, f < 34;
        }
        r
    }

    /// The representative figure stored in the low six bits.
    pub open spec fn figure_spec(self) -> Figure {
        Figure((self.0 & 0x3f) % 34)
    }

    /// The shape tag stored in the top two bits.
    pub open spec fn shape_spec(self) -> Shape {
        Shape(self.0 >> 6)
    }

    pub fn figure(&self) -> (r: Figure)
        ensures
            r == self.figure_spec(),
            r.wf(),
    {
        Figure::from_id(self.raw() & 0x3f)
    }

    pub fn shape(&self) -> (r: Shape)
        ensures
            r == self.shape_spec(),
            r.wf(),
    {
        proof {
            let x = self.0;
            assert(x >> 6 < 4 && (x as usize >> 6) % 4 == x as usize >> 6 && x as usize >> 6 == x >> 6) by (bit_vector);
        }
        Shape::from_id(self.raw() >> 6)
    }
}

impl Suit {
    /// Number of suits, the honor family included.
    pub const N: usize = 4;

    pub open spec fn wf(self) -> bool {
        self.0 < 4
    }

    /// The first numeral suit (characters).
    pub fn chara() -> (r: Self)
        ensures
            r.0 == 0,
    {
        Suit(0)
    }

    /// The second numeral suit (bamboos).
    pub fn bamboo() -> (r: Self)
        ensures
            r.0 == 1,
    {
        Suit(1)
    }

    /// The third numeral suit (circles).
    pub fn circle() -> (r: Self)
        ensures
            r.0 == 2,
    {
        Suit(2)
    }

    /// The honor family: winds and dragons.
    pub fn hounor() -> (r: Self)
        ensures
            r.0 == 3,
    {
        Suit(3)
    }

    pub fn id(&self) -> (r: usize)
        ensures
            r == self.0 as int,
    {
        self.0 as usize
    }

    /// Total constructor: the index is reduced modulo the domain size.
    pub fn from_id(id: usize) -> (r: Self)
        ensures
            r.0 == id as int % 4,
            r.wf(),
    {
        Suit((id % Self::N) as u8)
    }

    /// All four suits in identifier order.
    pub fn mk_iter() -> (r: Vec<Self>)
        ensures
            r@.len() == 4,
            forall|i: int| 0 <= i < 4 ==> (#[trigger] r@[i]).0 == i,
    {
        let mut v: Vec<Suit> = Vec::new();
        for i in 0..Self::N
            invariant
                v@.len() == i,
                forall|j: int| 0 <= j < i ==> (#[trigger] v@[j]).0 == j,
        {
            v.push(Suit::from_id(i));
        }
        v
    }

    /// True of the honor family, whose figures never form runs.
    pub fn is_horner(&self) -> (r: bool)
        ensures
            r == (self.0 >= 3),
    {
        self.0 >= 3
    }

    pub fn is_numeric(&self) -> (r: bool)
        ensures
            r == (self.0 < 3),
    {
        self.0 < 3
    }
}

impl Rank {
    /// Number of ranks within one suit.
    pub const N: usize = 9;

    pub open spec fn wf(self) -> bool {
        self.0 < 9
    }

    pub fn id(&self) -> (r: usize)
        ensures
            r == self.0 as int,
    {
        self.0 as usize
    }

    /// Total constructor: the index is reduced modulo the domain size.
    pub fn from_id(id: usize) -> (r: Self)
        ensures
            r.0 == id as int % 9,
            r.wf(),
    {
        Rank((id % Self::N) as u8)
    }

    /// All nine ranks in order.
    pub fn mk_iter() -> (r: Vec<Self>)
        ensures
            r@.len() == 9,
            forall|i: int| 0 <= i < 9 ==> (#[trigger] r@[i]).0 == i,
    {
        let mut v: Vec<Rank> = Vec::new();
        for i in 0..Self::N
            invariant
                v@.len() == i,
                forall|j: int| 0 <= j < i ==> (#[trigger] v@[j]).0 == j,
        {
            v.push(Rank::from_id(i));
        }
        v
    }
}

/// The 3-bit field of `x` that starts at bit `s`.
pub open spec fn fld(x: u32, s: u32) -> u32 {
    (x >> s) & 7
}

/// A packed rank-multiset for one suit: nine 3-bit counters in a `u32`,
/// counter `k` in bits `3k..3k+3`.
#[derive(Copy, Clone, Debug, PartialEq, Eq, Structural)]
pub struct Ranks(pub u32);

impl Ranks {
    /// The count stored for rank `k`.
    pub open spec fn count_of(self, k: int) -> u32 {
        fld(self.0, (3 * k) as u32)
    }

    /// Only the nine counters are in use.
    pub open spec fn fits(self) -> bool {
        self.0 >> 27 == 0
    }

    /// No rank exceeds its four physical copies.  The bit tricks below rely
    /// on this; it is the caller's charge, as inserting a fifth copy is
    /// already a rule violation upstream.
    pub open spec fn wf(self) -> bool {
        &&& self.fits()
        &&& forall|s: u32| s < 27 && s % 3 == 0 ==> #[trigger] fld(self.0, s) <= 4
    }

    /// The number of tiles counted, over all nine ranks.
    pub open spec fn total(self) -> int {
        self.count_of(0) + self.count_of(1) + self.count_of(2) + self.count_of(3)
            + self.count_of(4) + self.count_of(5) + self.count_of(6) + self.count_of(7)
            + self.count_of(8)
    }

    proof fn lemma_wf_fields(self)
        requires
            forall|k: int| 0 <= k < 9 ==> self.count_of(k) <= 4,
            self.fits(),
        ensures
            self.wf(),
    {
        assert forall|s: u32| s < 27 && s % 3 == 0 implies #[trigger] fld(self.0, s) <= 4 by {
            assert(fld(self.0, s) == self.count_of(s as int / 3));
        }
    }

    pub fn new() -> (r: Self)
        ensures
            r.0 == 0,
            r.wf(),
            forall|k: int| 0 <= k < 9 ==> r.count_of(k) == 0,
    {
        proof {
            Ranks(0).lemma_zero();
        }
        Ranks(0)
    }

    pub fn is_empty(&self) -> (r: bool)
        requires
            self.fits(),
        ensures
            r == (self.total() == 0),
            r == (self.0 == 0),
    {
        proof {
            let x = self.0;
            assert(x >> 27 == 0 ==> ((x == 0) <==> fld(x, 0) + fld(x, 3) + fld(x, 6) + fld(x, 9)
                + fld(x, 12) + fld(x, 15) + fld(x, 18) + fld(x, 21) + fld(x, 24) == 0))
                by (bit_vector);
        }
        self.count() == 0
    }

    pub fn raw(self) -> (r: usize)
        ensures
            r == self.0 as int,
    {
        self.0 as usize
    }

    /// Keeps the low 27 bits; the counters are taken as given, unchecked.
    pub fn from_raw(raw: usize) -> (r: Self)
        ensures
            r.0 == (raw as u32) & 0o777777777,
            r.fits(),
    {
        proof {
            assert(((raw & 0o777777777) as u32) == (raw as u32) & 0o777777777
                && ((raw as u32) & 0o777777777) >> 27 == 0) by (bit_vector);
        }
        Ranks(#[verifier::truncate] ((raw & 0o777777777) as u32))
    }

    /// Total count by a two-step tree sum over the nine counters.
    pub fn count(&self) -> (r: usize)
        requires
            self.fits(),
        ensures
            r == self.total(),
    {
        let x = self.0;
        proof {
            Self::lemma_tree_sum(x);
        }
        let a = (x & 0o007007007) + ((x >> 3) & 0o007007007) + ((x >> 6) & 0o007007007);
        let b = (a & 0o000000777) + ((a >> 9) & 0o000000777) + ((a >> 18) & 0o000000777);
        b as usize
    }

    /// The tree sum over the three counter lanes adds up the nine fields.
    proof fn lemma_tree_sum(x: u32)
        requires
            x >> 27 == 0,
        ensures
            ({
                let a = (x & 0o007007007) + ((x >> 3) & 0o007007007) + ((x >> 6) & 0o007007007);
                let b = (a as u32 & 0o000000777) + ((a as u32 >> 9) & 0o000000777)
                    + ((a as u32 >> 18) & 0o000000777);
                &&& a < 0x100000000
                &&& b < 0x100000000
                &&& b == fld(x, 0) + fld(x, 3) + fld(x, 6) + fld(x, 9) + fld(x, 12) + fld(x, 15)
                    + fld(x, 18) + fld(x, 21) + fld(x, 24)
            }),
    {
        assert({
            let a = (x & 0o007007007) + ((x >> 3) & 0o007007007) + ((x >> 6) & 0o007007007);
            let b = (a as u32 & 0o000000777) + ((a as u32 >> 9) & 0o000000777)
                + ((a as u32 >> 18) & 0o000000777);
            &&& a < 0x100000000
            &&& b < 0x100000000
            &&& b == fld(x, 0) + fld(x, 3) + fld(x, 6) + fld(x, 9) + fld(x, 12) + fld(x, 15)
                + fld(x, 18) + fld(x, 21) + fld(x, 24)
        }) by (bit_vector)
            requires x >> 27 == 0;
    }

    /// Removes and returns one copy at the lowest occupied rank.
    pub fn next(&mut self) -> (r: Option<Rank>)
        requires
            old(self).fits(),
        ensures
            old(self).0 == 0 ==> r is None && *final(self) == *old(self),
            old(self).0 != 0 ==> r is Some && {
                let k = (r->0).0 as int;
                &&& (r->0).wf()
                &&& old(self).count_of(k) != 0
                &&& forall|j: int| 0 <= j < k ==> old(self).count_of(j) == 0
                &&& final(self).count_of(k) == old(self).count_of(k) - 1
                &&& forall|j: int| 0 <= j < 9 && j != k ==> final(self).count_of(j)
                    == old(self).count_of(j)
                &&& final(self).fits()
            },
    {
        let x = self.0;
        if x != 0 {
            let z = x.trailing_zeros();
            proof {
                broadcast use vstd::std_specs::bits::group_bits_axioms;

                assert(x << (32 - z) as u32 == 0);
                assert(z < 27 && (x >> z) & 1 == 1 && 1u32 << (3 * (z / 3)) <= x
                    && 3 * (z / 3) < 32) by (bit_vector)
                    requires
                        x != 0,
                        x >> 27 == 0,
                        z < 32,
                        (x >> z) & 1u32 == 1u32;
            }
            let i = z / 3;
            let y = x - (1 << (3 * i));
            proof {
                assert({
                    &&& i < 9
                    &&& fld(x, (3 * i) as u32) != 0
                    &&& (forall|s: u32| s % 3 == 0 && s < 3 * i ==> #[trigger] ((x >> s) & 7u32) == 0)
                    &&& fld(y, (3 * i) as u32) == fld(x, (3 * i) as u32) - 1
                    &&& (forall|s: u32| s % 3 == 0 && s < 27 && s != 3 * i ==>
                        #[trigger] ((y >> s) & 7u32) == (x >> s) & 7u32)
                    &&& y >> 27 == 0
                }) by (bit_vector)
                    requires
                        i == z / 3,
                        z < 27,
                        x >> 27 == 0,
                        (x >> z) & 1u32 == 1u32,
                        x << (32 - z) as u32 == 0,
                        y + (1u32 << (3 * i)) == x;
                assert forall|j: int| 0 <= j < 9 && j != i as int implies Ranks(y).count_of(j)
                    == Ranks(x).count_of(j) by {
                    assert(((y >> ((3 * j) as u32)) & 7u32) == (x >> ((3 * j) as u32)) & 7u32);
                }
                assert forall|j: int| 0 <= j < i as int implies Ranks(x).count_of(j) == 0 by {
                    assert(((x >> ((3 * j) as u32)) & 7u32) == 0);
                }
            }
            self.0 = y;
            Some(Rank::from_id(i as usize))
        } else {
            None
        }
    }

    /// Adds one copy of `rank`.  The caller keeps counts within the four
    /// physical copies; six is the hard ceiling before bits would spill.
    pub fn add(&mut self, rank: Rank)
        requires
            old(self).fits(),
            rank.wf(),
            old(self).count_of(rank.0 as int) < 7,
        ensures
            final(self).count_of(rank.0 as int) == old(self).count_of(rank.0 as int) + 1,
            forall|j: int| 0 <= j < 9 && j != rank.0 as int ==> final(self).count_of(j)
                == old(self).count_of(j),
            final(self).fits(),
            old(self).wf() && old(self).count_of(rank.0 as int) < 4 ==> final(self).wf(),
    {
        let x = self.0;
        let k = rank.0 as u32;
        proof {
            assert(x >> 27 == 0 && k < 9 && fld(x, (3 * k) as u32) < 7 ==> {
                &&& x + (1u32 << (3 * k)) < 0x100000000
                &&& fld((x + (1u32 << (3 * k))) as u32, (3 * k) as u32) == fld(x, (3 * k) as u32) + 1
                &&& (forall|s: u32| s % 3 == 0 && s < 27 && s != 3 * k ==>
                    #[trigger] (((x + (1u32 << (3 * k))) as u32 >> s) & 7u32) == (x >> s) & 7u32)
                &&& (x + (1u32 << (3 * k))) as u32 >> 27 == 0
            }) by (bit_vector);
            if old(self).wf() && old(self).count_of(rank.0 as int) < 4 {
                let nv = Ranks((x + (1u32 << (3 * k))) as u32);
                assert forall|j: int| 0 <= j < 9 implies nv.count_of(j) <= 4 by {
                    assert(fld(x, (3 * j) as u32) <= 4);
                    if j != k as int {
                        assert(((nv.0 >> ((3 * j) as u32)) & 7u32) == (x >> ((3 * j) as u32)) & 7u32);
                    }
                }
                nv.lemma_wf_fields();
            }
        }
        self.0 = x + (1 << (3 * k));
    }

    pub fn has(&self, rank: Rank) -> (r: bool)
        requires
            rank.wf(),
        ensures
            r == (self.count_of(rank.0 as int) != 0),
    {
        let x = self.0;
        let k = rank.0 as u32;
        proof {
            assert((x & (7u32 << (3 * k)) != 0) == (fld(x, (3 * k) as u32) != 0)) by (bit_vector)
                requires k < 9;
        }
        x & (0o7 << (3 * k)) != 0
    }

    /// A lone quad at `rank`.
    pub fn make_kong(rank: Rank) -> (r: Self)
        requires
            rank.wf(),
        ensures
            r.count_of(rank.0 as int) == 4,
            forall|j: int| 0 <= j < 9 && j != rank.0 as int ==> r.count_of(j) == 0,
            r.wf(),
    {
        let r = Ranks::from_raw(0o4usize << (3 * rank.id()));
        proof {
            Self::lemma_single_field(r.0, rank.0 as u32, 4);
        }
        r
    }

    /// A lone triplet at `rank`.
    pub fn make_pung(rank: Rank) -> (r: Self)
        requires
            rank.wf(),
        ensures
            r.count_of(rank.0 as int) == 3,
            forall|j: int| 0 <= j < 9 && j != rank.0 as int ==> r.count_of(j) == 0,
            r.wf(),
    {
        let r = Ranks::from_raw(0o3usize << (3 * rank.id()));
        proof {
            Self::lemma_single_field(r.0, rank.0 as u32, 3);
        }
        r
    }

    /// A lone run starting at `rank`: one copy each at the next three ranks.
    pub fn make_chow(rank: Rank) -> (r: Self)
        requires
            rank.0 < 7,
        ensures
            forall|j: int| 0 <= j < 9 ==> r.count_of(j)
                == if rank.0 <= j <= rank.0 + 2 { 1u32 } else { 0u32 },
            r.wf(),
    {
        let r = Ranks::from_raw(0o111usize << (3 * rank.id()));
        proof {
            let k = rank.0 as u32;
            let x = r.0;
            assert(forall|s: u32| s % 3 == 0 && s < 27 ==> #[trigger] ((x >> s) & 7u32)
                == if 3 * k <= s <= 3 * k + 6 { 1u32 } else { 0u32 }) by (bit_vector)
                requires k < 7, x == ((0o111usize << (3 * k)) as u32) & 0o777777777;
            assert forall|j: int| 0 <= j < 9 implies r.count_of(j)
                == if rank.0 <= j <= rank.0 + 2 { 1u32 } else { 0u32 } by {
                assert(fld(x, (3 * j) as u32) == r.count_of(j));
            }
            r.lemma_wf_fields();
        }
        r
    }

    /// A lone pair at `rank`.
    pub fn make_pair(rank: Rank) -> (r: Self)
        requires
            rank.wf(),
        ensures
            r.count_of(rank.0 as int) == 2,
            forall|j: int| 0 <= j < 9 && j != rank.0 as int ==> r.count_of(j) == 0,
            r.wf(),
    {
        let r = Ranks::from_raw(0o2usize << (3 * rank.id()));
        proof {
            Self::lemma_single_field(r.0, rank.0 as u32, 2);
        }
        r
    }

    /// A lone single at `rank`.
    pub fn make_one(rank: Rank) -> (r: Self)
        requires
            rank.wf(),
        ensures
            r.count_of(rank.0 as int) == 1,
            forall|j: int| 0 <= j < 9 && j != rank.0 as int ==> r.count_of(j) == 0,
            r.wf(),
    {
        let r = Ranks::from_raw(0o1usize << (3 * rank.id()));
        proof {
            Self::lemma_single_field(r.0, rank.0 as u32, 1);
        }
        r
    }

    proof fn lemma_single_field(x: u32, k: u32, v: u32)
        requires
            k < 9,
            v < 8,
            x == (((v as usize) << (3 * k)) as u32) & 0o777777777,
        ensures
            Ranks(x).count_of(k as int) == v,
            forall|j: int| 0 <= j < 9 && j != k as int ==> Ranks(x).count_of(j) == 0,
            Ranks(x).fits(),
            v <= 4 ==> Ranks(x).wf(),
    {
        assert(fld(x, (3 * k) as u32) == v && (forall|s: u32| s % 3 == 0 && s < 27 && s != 3 * k
            ==> #[trigger] ((x >> s) & 7u32) == 0) && x >> 27 == 0) by (bit_vector)
            requires k < 9, v < 8, x == (((v as usize) << (3 * k)) as u32) & 0o777777777;
        assert forall|j: int| 0 <= j < 9 && j != k as int implies Ranks(x).count_of(j) == 0 by {
            assert(fld(x, (3 * j) as u32) == Ranks(x).count_of(j));
        }
        if v <= 4 {
            Ranks(x).lemma_wf_fields();
        }
    }

    /// One carry-trick threshold pass: adding `m` pushes a carry into bit 2
    /// of every counter at least `t`, for `m` built of `4 - t` per counter.
    proof fn lemma_bv_threshold(x: u32, t: u32, m: u32)
        requires
            x >> 27 == 0,
            fld(x, 0) <= 4,
            fld(x, 3) <= 4,
            fld(x, 6) <= 4,
            fld(x, 9) <= 4,
            fld(x, 12) <= 4,
            fld(x, 15) <= 4,
            fld(x, 18) <= 4,
            fld(x, 21) <= 4,
            fld(x, 24) <= 4,
            1 <= t <= 3,
            m == ((4 - t) * 0o111111111) as u32,
        ensures
            x + m < 0x100000000,
            forall|s: u32| s < 27 && s % 3 == 0 ==>
                #[trigger] ((((((x + m) as u32) >> 2) & 0o111111111) >> s) & 7u32)
                == (if (x >> s) & 7u32 >= t { 1u32 } else { 0u32 }),
            ((((x + m) as u32) >> 2) & 0o111111111) >> 27 == 0,
    {
        assert({
            &&& x + m < 0x100000000
            &&& (forall|s: u32| s < 27 && s % 3 == 0 ==>
                #[trigger] ((((((x + m) as u32) >> 2) & 0o111111111) >> s) & 7u32)
                == (if (x >> s) & 7u32 >= t { 1u32 } else { 0u32 }))
            &&& ((((x + m) as u32) >> 2) & 0o111111111) >> 27 == 0
        }) by (bit_vector)
            requires
                x >> 27 == 0,
                (x >> 0u32) & 7u32 <= 4,
                (x >> 3u32) & 7u32 <= 4,
                (x >> 6u32) & 7u32 <= 4,
                (x >> 9u32) & 7u32 <= 4,
                (x >> 12u32) & 7u32 <= 4,
                (x >> 15u32) & 7u32 <= 4,
                (x >> 18u32) & 7u32 <= 4,
                (x >> 21u32) & 7u32 <= 4,
                (x >> 24u32) & 7u32 <= 4,
                1 <= t <= 3,
                m == ((4 - t) * 0o111111111) as u32;
    }

    /// Ranks holding a triplet: counter 1 where the count is at least 3.
    pub fn filter_pung(self) -> (r: Self)
        requires
            self.wf(),
        ensures
            forall|k: int| 0 <= k < 9 ==> r.count_of(k)
                == if self.count_of(k) >= 3 { 1u32 } else { 0u32 },
            r.wf(),
    {
        let x = self.0;
        proof {
            self.lemma_field_instances();
            Self::lemma_bv_threshold(x, 3, 0o111111111);
        }
        let y = ((x + 0o111111111) >> 2) & 0o111111111;
        let r = Ranks(y);
        proof {
            assert(y == ((((x + 0o111111111) as u32) >> 2) & 0o111111111));
            Self::lemma_filter_glue(self, r, 3);
        }
        r
    }

    /// Ranks holding a quad: counter 1 where the count is the full four.
    pub fn filter_kong(self) -> (r: Self)
        requires
            self.wf(),
        ensures
            forall|k: int| 0 <= k < 9 ==> r.count_of(k)
                == if self.count_of(k) >= 4 { 1u32 } else { 0u32 },
            r.wf(),
    {
        let x = self.0;
        proof {
            self.lemma_field_instances();
            assert({
                &&& (forall|s: u32| s < 27 && s % 3 == 0 ==>
                    #[trigger] ((((x >> 2) & 0o111111111) >> s) & 7u32)
                    == (if (x >> s) & 7u32 >= 4 { 1u32 } else { 0u32 }))
                &&& ((x >> 2) & 0o111111111) >> 27 == 0
            }) by (bit_vector)
                requires
                    x >> 27 == 0,
                    fld(x, 0) <= 4,
                    fld(x, 3) <= 4,
                    fld(x, 6) <= 4,
                    fld(x, 9) <= 4,
                    fld(x, 12) <= 4,
                    fld(x, 15) <= 4,
                    fld(x, 18) <= 4,
                    fld(x, 21) <= 4,
                    fld(x, 24) <= 4;
        }
        let y = (x >> 2) & 0o111111111;
        let r = Ranks(y);
        proof {
            Self::lemma_filter_glue(self, r, 4);
        }
        r
    }

    /// Ranks holding a pair: counter 1 where the count is at least 2.
    pub fn filter_pair(self) -> (r: Self)
        requires
            self.wf(),
        ensures
            forall|k: int| 0 <= k < 9 ==> r.count_of(k)
                == if self.count_of(k) >= 2 { 1u32 } else { 0u32 },
            r.wf(),
    {
        let x = self.0;
        proof {
            self.lemma_field_instances();
            Self::lemma_bv_threshold(x, 2, 0o222222222);
        }
        let y = ((x + 0o222222222) >> 2) & 0o111111111;
        let r = Ranks(y);
        proof {
            assert(y == ((((x + 0o222222222) as u32) >> 2) & 0o111111111));
            Self::lemma_filter_glue(self, r, 2);
        }
        r
    }

    /// Ranks present at all: counter 1 where the count is at least 1.
    pub fn filter_one(self) -> (r: Self)
        requires
            self.wf(),
        ensures
            forall|k: int| 0 <= k < 9 ==> r.count_of(k)
                == if self.count_of(k) >= 1 { 1u32 } else { 0u32 },
            r.wf(),
    {
        let x = self.0;
        proof {
            self.lemma_field_instances();
            Self::lemma_bv_threshold(x, 1, 0o333333333);
        }
        let y = ((x + 0o333333333) >> 2) & 0o111111111;
        let r = Ranks(y);
        proof {
            assert(y == ((((x + 0o333333333) as u32) >> 2) & 0o111111111));
            Self::lemma_filter_glue(self, r, 1);
        }
        r
    }

    /// Carries a threshold filter's field-wise facts from shifts to counts.
    proof fn lemma_filter_glue(a: Ranks, b: Ranks, t: u32)
        requires
            forall|s: u32| s < 27 && s % 3 == 0 ==> #[trigger] ((b.0 >> s) & 7u32)
                == (if (a.0 >> s) & 7u32 >= t { 1u32 } else { 0u32 }),
            b.fits(),
        ensures
            forall|k: int| 0 <= k < 9 ==> b.count_of(k)
                == if a.count_of(k) >= t { 1u32 } else { 0u32 },
            b.wf(),
    {
        assert forall|k: int| 0 <= k < 9 implies b.count_of(k)
            == if a.count_of(k) >= t { 1u32 } else { 0u32 } by {
            assert(((b.0 >> ((3 * k) as u32)) & 7u32)
                == (if (a.0 >> ((3 * k) as u32)) & 7u32 >= t { 1u32 } else { 0u32 }));
        }
        b.lemma_wf_fields();
    }

    /// Names each of the nine counters once, so quantified facts about the
    /// raw word and facts about counts can meet.
    proof fn lemma_field_instances(self)
        ensures
            fld(self.0, 0) == self.count_of(0),
            fld(self.0, 3) == self.count_of(1),
            fld(self.0, 6) == self.count_of(2),
            fld(self.0, 9) == self.count_of(3),
            fld(self.0, 12) == self.count_of(4),
            fld(self.0, 15) == self.count_of(5),
            fld(self.0, 18) == self.count_of(6),
            fld(self.0, 21) == self.count_of(7),
            fld(self.0, 24) == self.count_of(8),
    {
    }

    /// A zero word counts nothing.
    pub proof fn lemma_zero(self)
        requires
            self.0 == 0,
        ensures
            self.wf(),
            self.total() == 0,
            forall|k: int| 0 <= k < 9 ==> self.count_of(k) == 0,
    {
        let x = self.0;
        assert((forall|t: u32| #[trigger] ((x >> t) & 7u32) == 0) && x >> 27 == 0)
            by (bit_vector)
            requires x == 0;
        assert forall|t: u32| t < 27 && t % 3 == 0 implies #[trigger] fld(x, t) <= 4 by {
            assert((x >> t) & 7u32 == 0);
        }
        assert forall|k: int| 0 <= k < 9 implies self.count_of(k) == 0 by {
            assert((x >> ((3 * k) as u32)) & 7u32 == 0);
        }
    }

    /// Nine 3-bit counters can hold at most 63 tiles.
    pub proof fn lemma_total_bounds(self)
        ensures
            0 <= self.total() <= 63,
    {
        let x = self.0;
        assert(forall|s: u32| #[trigger] ((x >> s) & 7u32) <= 7) by (bit_vector);
        assert(self.count_of(0) <= 7 && self.count_of(1) <= 7 && self.count_of(2) <= 7
            && self.count_of(3) <= 7 && self.count_of(4) <= 7 && self.count_of(5) <= 7
            && self.count_of(6) <= 7 && self.count_of(7) <= 7 && self.count_of(8) <= 7);
    }

    /// The quad filter is exact: on a multiset with all four copies at one
    /// rank and fewer everywhere else, any output meeting the filter's
    /// contract is the singleton of that rank; with no full quad anywhere,
    /// it is empty.
    pub proof fn lemma_kong_filter_exact(a: Ranks, b: Ranks, r: int)
        requires
            forall|k: int| 0 <= k < 9 ==> #[trigger] b.count_of(k)
                == if a.count_of(k) >= 4 { 1u32 } else { 0u32 },
            0 <= r < 9,
            a.count_of(r) == 4,
            forall|k: int| 0 <= k < 9 && k != r ==> #[trigger] a.count_of(k) < 4,
        ensures
            b.count_of(r) == 1,
            forall|k: int| 0 <= k < 9 && k != r ==> #[trigger] b.count_of(k) == 0,
            b.total() == 1,
    {
    }

    /// The quad filter is empty when no rank holds all four copies.
    pub proof fn lemma_kong_filter_empty(a: Ranks, b: Ranks)
        requires
            forall|k: int| 0 <= k < 9 ==> #[trigger] b.count_of(k)
                == if a.count_of(k) >= 4 { 1u32 } else { 0u32 },
            forall|k: int| 0 <= k < 9 ==> #[trigger] a.count_of(k) < 4,
        ensures
            b.total() == 0,
    {
    }

    /// The run filter is exact: on a multiset holding one copy each of the
    /// three lowest ranks and nothing else, any output meeting the filter's
    /// contract marks the lowest rank alone.
    pub proof fn lemma_chow_filter_exact(a: Ranks, b: Ranks)
        requires
            forall|k: int| 0 <= k < 9 ==> #[trigger] b.count_of(k)
                == if a.chow_at(k) { 1u32 } else { 0u32 },
            a.count_of(0) == 1,
            a.count_of(1) == 1,
            a.count_of(2) == 1,
            forall|k: int| 3 <= k < 9 ==> #[trigger] a.count_of(k) == 0,
        ensures
            b.count_of(0) == 1,
            forall|k: int| 0 < k < 9 ==> #[trigger] b.count_of(k) == 0,
            b.total() == 1,
    {
    }

    /// Conjoining a presence word with its own once-shifted self marks the
    /// counters whose next neighbor up is also present.
    proof fn lemma_bv_and_shift(p: u32)
        requires
            p >> 27 == 0,
            fld(p, 0) <= 1,
            fld(p, 3) <= 1,
            fld(p, 6) <= 1,
            fld(p, 9) <= 1,
            fld(p, 12) <= 1,
            fld(p, 15) <= 1,
            fld(p, 18) <= 1,
            fld(p, 21) <= 1,
            fld(p, 24) <= 1,
        ensures
            forall|s: u32| s < 27 && s % 3 == 0 ==>
                #[trigger] (((p & (p >> 3)) >> s) & 7u32)
                == (if s + 3 < 27 && (p >> s) & 7u32 == 1 && (p >> (s + 3) as u32) & 7u32 == 1
                    { 1u32 } else { 0u32 }),
            (p & (p >> 3)) >> 27 == 0,
    {
        assert({
            &&& (forall|s: u32| s < 27 && s % 3 == 0 ==>
                #[trigger] (((p & (p >> 3)) >> s) & 7u32)
                == (if s + 3 < 27 && (p >> s) & 7u32 == 1 && (p >> (s + 3) as u32) & 7u32 == 1
                    { 1u32 } else { 0u32 }))
            &&& (p & (p >> 3)) >> 27 == 0
        }) by (bit_vector)
            requires
                p >> 27 == 0,
                (p >> 0u32) & 7u32 <= 1,
                (p >> 3u32) & 7u32 <= 1,
                (p >> 6u32) & 7u32 <= 1,
                (p >> 9u32) & 7u32 <= 1,
                (p >> 12u32) & 7u32 <= 1,
                (p >> 15u32) & 7u32 <= 1,
                (p >> 18u32) & 7u32 <= 1,
                (p >> 21u32) & 7u32 <= 1,
                (p >> 24u32) & 7u32 <= 1;
    }

    /// Whether a run starts at `k`: this rank and the two above it present.
    pub open spec fn chow_at(self, k: int) -> bool {
        &&& k <= 6
        &&& self.count_of(k) >= 1
        &&& self.count_of(k + 1) >= 1
        &&& self.count_of(k + 2) >= 1
    }

    /// Ranks where a full run starts.  Suit-blind: the caller keeps honor
    /// suits away from run shapes.
    pub fn filter_chow(self) -> (r: Self)
        requires
            self.wf(),
        ensures
            forall|k: int| 0 <= k < 9 ==> r.count_of(k)
                == if self.chow_at(k) { 1u32 } else { 0u32 },
            r.wf(),
    {
        let q = self.filter_one();
        let p = q.0;
        let y = p & (p >> 3) & (p >> 6);
        let r = Ranks(y);
        proof {
            q.lemma_field_instances();
            assert({
                &&& (forall|s: u32| s < 27 && s % 3 == 0 ==>
                    #[trigger] (((p & (p >> 3) & (p >> 6)) >> s) & 7u32)
                    == (if s <= 18 && (p >> s) & 7u32 == 1 && (p >> (s + 3) as u32) & 7u32 == 1
                        && (p >> (s + 6) as u32) & 7u32 == 1 { 1u32 } else { 0u32 }))
                &&& (p & (p >> 3) & (p >> 6)) >> 27 == 0
            }) by (bit_vector)
                requires
                    p >> 27 == 0,
                    fld(p, 0) <= 1,
                    fld(p, 3) <= 1,
                    fld(p, 6) <= 1,
                    fld(p, 9) <= 1,
                    fld(p, 12) <= 1,
                    fld(p, 15) <= 1,
                    fld(p, 18) <= 1,
                    fld(p, 21) <= 1,
                    fld(p, 24) <= 1;
            assert forall|k: int| 0 <= k < 9 implies r.count_of(k)
                == if self.chow_at(k) { 1u32 } else { 0u32 } by {
                assert(((y >> ((3 * k) as u32)) & 7u32) == r.count_of(k));
                assert(((p >> ((3 * k) as u32)) & 7u32) == q.count_of(k));
                if k <= 6 {
                    assert(((p >> ((3 * k + 3) as u32)) & 7u32) == q.count_of(k + 1));
                    assert(((p >> ((3 * k + 6) as u32)) & 7u32) == q.count_of(k + 2));
                }
            }
            r.lemma_wf_fields();
        }
        r
    }

    /// Whether two adjacent ranks are present starting at `k`.
    pub open spec fn penryan_at(self, k: int) -> bool {
        &&& k <= 7
        &&& self.count_of(k) >= 1
        &&& self.count_of(k + 1) >= 1
    }

    /// Whether a gapped partial run starts at `k`: `k` and `k + 2` present
    /// with the middle rank missing, so the wait is closed on one tile.
    pub open spec fn kanchan_at(self, k: int) -> bool {
        &&& k <= 6
        &&& self.count_of(k) >= 1
        &&& self.count_of(k + 1) == 0
        &&& self.count_of(k + 2) >= 1
    }

    /// Ranks where an adjacent partial run starts (edge or open).
    pub fn filter_penryan(self) -> (r: Self)
        requires
            self.wf(),
        ensures
            forall|k: int| 0 <= k < 9 ==> r.count_of(k)
                == if self.penryan_at(k) { 1u32 } else { 0u32 },
            r.wf(),
    {
        let q = self.filter_one();
        let p = q.0;
        let y = p & (p >> 3);
        let r = Ranks(y);
        proof {
            q.lemma_field_instances();
            Self::lemma_bv_and_shift(p);
            assert forall|k: int| 0 <= k < 9 implies r.count_of(k)
                == if self.penryan_at(k) { 1u32 } else { 0u32 } by {
                assert(((y >> ((3 * k) as u32)) & 7u32) == r.count_of(k));
                assert(((p >> ((3 * k) as u32)) & 7u32) == q.count_of(k));
                if k <= 7 {
                    assert(((p >> ((3 * k + 3) as u32)) & 7u32) == q.count_of(k + 1));
                }
            }
            r.lemma_wf_fields();
        }
        r
    }

    /// Ranks where a gapped partial run starts.
    pub fn filter_kanchan(self) -> (r: Self)
        requires
            self.wf(),
        ensures
            forall|k: int| 0 <= k < 9 ==> r.count_of(k)
                == if self.kanchan_at(k) { 1u32 } else { 0u32 },
            r.wf(),
    {
        let q = self.filter_one();
        let p = q.0;
        let y = p & (p >> 6) & !(p >> 3);
        let r = Ranks(y);
        proof {
            q.lemma_field_instances();
            assert({
                &&& (forall|s: u32| s < 27 && s % 3 == 0 ==>
                    #[trigger] (((p & (p >> 6) & !(p >> 3)) >> s) & 7u32)
                    == (if s + 6 < 27 && (p >> s) & 7u32 == 1 && (p >> (s + 3) as u32) & 7u32
                        == 0 && (p >> (s + 6) as u32) & 7u32 == 1 { 1u32 } else { 0u32 }))
                &&& (p & (p >> 6) & !(p >> 3)) >> 27 == 0
            }) by (bit_vector)
                requires
                    p >> 27 == 0,
                    (p >> 0u32) & 7u32 <= 1,
                    (p >> 3u32) & 7u32 <= 1,
                    (p >> 6u32) & 7u32 <= 1,
                    (p >> 9u32) & 7u32 <= 1,
                    (p >> 12u32) & 7u32 <= 1,
                    (p >> 15u32) & 7u32 <= 1,
                    (p >> 18u32) & 7u32 <= 1,
                    (p >> 21u32) & 7u32 <= 1,
                    (p >> 24u32) & 7u32 <= 1;
            assert forall|k: int| 0 <= k < 9 implies r.count_of(k)
                == if self.kanchan_at(k) { 1u32 } else { 0u32 } by {
                assert(((y >> ((3 * k) as u32)) & 7u32) == r.count_of(k));
                assert(((p >> ((3 * k) as u32)) & 7u32) == q.count_of(k));
                if k <= 6 {
                    assert(((p >> ((3 * k + 3) as u32)) & 7u32) == q.count_of(k + 1));
                    assert(((p >> ((3 * k + 6) as u32)) & 7u32) == q.count_of(k + 2));
                }
            }
            r.lemma_wf_fields();
        }
        r
    }

    /// The two edge masks pick out the lone end counters and the inner
    /// stretch of a presence word.
    proof fn lemma_bv_edge_masks(p: u32)
        requires
            p >> 27 == 0,
            fld(p, 0) <= 1,
            fld(p, 3) <= 1,
            fld(p, 6) <= 1,
            fld(p, 9) <= 1,
            fld(p, 12) <= 1,
            fld(p, 15) <= 1,
            fld(p, 18) <= 1,
            fld(p, 21) <= 1,
            fld(p, 24) <= 1,
        ensures
            forall|s: u32| s < 27 && s % 3 == 0 ==>
                #[trigger] (((p & 0o010000001) >> s) & 7u32)
                == (if s == 0 || s == 21 { (p >> s) & 7u32 } else { 0u32 }),
            (p & 0o010000001) >> 27 == 0,
            forall|s: u32| s < 27 && s % 3 == 0 ==>
                #[trigger] (((p & 0o001111110) >> s) & 7u32)
                == (if 3 <= s <= 18 { (p >> s) & 7u32 } else { 0u32 }),
            (p & 0o001111110) >> 27 == 0,
    {
        assert({
            &&& (forall|s: u32| s < 27 && s % 3 == 0 ==>
                #[trigger] (((p & 0o010000001) >> s) & 7u32)
                == (if s == 0 || s == 21 { (p >> s) & 7u32 } else { 0u32 }))
            &&& (p & 0o010000001) >> 27 == 0
            &&& (forall|s: u32| s < 27 && s % 3 == 0 ==>
                #[trigger] (((p & 0o001111110) >> s) & 7u32)
                == (if 3 <= s <= 18 { (p >> s) & 7u32 } else { 0u32 }))
            &&& (p & 0o001111110) >> 27 == 0
        }) by (bit_vector)
            requires
                p >> 27 == 0,
                (p >> 0u32) & 7u32 <= 1,
                (p >> 3u32) & 7u32 <= 1,
                (p >> 6u32) & 7u32 <= 1,
                (p >> 9u32) & 7u32 <= 1,
                (p >> 12u32) & 7u32 <= 1,
                (p >> 15u32) & 7u32 <= 1,
                (p >> 18u32) & 7u32 <= 1,
                (p >> 21u32) & 7u32 <= 1,
                (p >> 24u32) & 7u32 <= 1;
    }

    /// Ranks where an edge partial run starts: the lowest or highest pair of
    /// adjacent ranks, waiting on a third rank from one side only.
    pub fn filter_penchan(self) -> (r: Self)
        requires
            self.wf(),
        ensures
            forall|k: int| 0 <= k < 9 ==> r.count_of(k)
                == if (k == 0 || k == 7) && self.penryan_at(k) { 1u32 } else { 0u32 },
            r.wf(),
    {
        let q = self.filter_penryan();
        let p = q.0;
        let y = p & 0o010000001;
        let r = Ranks(y);
        proof {
            q.lemma_field_instances();
            Self::lemma_bv_edge_masks(p);
            assert forall|k: int| 0 <= k < 9 implies r.count_of(k)
                == if (k == 0 || k == 7) && self.penryan_at(k) { 1u32 } else { 0u32 } by {
                assert(((y >> ((3 * k) as u32)) & 7u32) == r.count_of(k));
                assert(((p >> ((3 * k) as u32)) & 7u32) == q.count_of(k));
            }
            r.lemma_wf_fields();
        }
        r
    }

    /// Ranks where an open two-sided partial run starts.
    pub fn filter_ryanmen(self) -> (r: Self)
        requires
            self.wf(),
        ensures
            forall|k: int| 0 <= k < 9 ==> r.count_of(k)
                == if 1 <= k <= 6 && self.penryan_at(k) { 1u32 } else { 0u32 },
            r.wf(),
    {
        let q = self.filter_penryan();
        let p = q.0;
        let y = p & 0o001111110;
        let r = Ranks(y);
        proof {
            q.lemma_field_instances();
            Self::lemma_bv_edge_masks(p);
            assert forall|k: int| 0 <= k < 9 implies r.count_of(k)
                == if 1 <= k <= 6 && self.penryan_at(k) { 1u32 } else { 0u32 } by {
                assert(((y >> ((3 * k) as u32)) & 7u32) == r.count_of(k));
                assert(((p >> ((3 * k) as u32)) & 7u32) == q.count_of(k));
            }
            r.lemma_wf_fields();
        }
        r
    }

}

/// Any single extracted bit is zero or one.
proof fn lemma_bits_le_one(x: u64)
    ensures
        forall|m: u64| #[trigger] ((x >> m) & 1) <= 1,
{
    assert(forall|m: u64| #[trigger] ((x >> m) & 1) <= 1) by (bit_vector);
}

/// How many of the bits of `x` strictly below position `n` are set.
pub open spec fn ones_below(x: u64, n: nat) -> int
    decreases n,
{
    if n == 0 {
        0
    } else {
        ones_below(x, (n - 1) as nat) + ((x >> ((n - 1) as u64)) & 1)
    }
}

/// If `y` is `x` with one extra bit `j` set, every prefix popcount grows by
/// one once the prefix covers `j`.
proof fn lemma_ones_below_update(x: u64, y: u64, j: u64, n: nat)
    requires
        j < 64,
        n <= 64,
        (y >> j) & 1 == 1,
        (x >> j) & 1 == 0,
        forall|m: u64| m < 64 && m != j ==> #[trigger] ((y >> m) & 1) == ((x >> m) & 1),
    ensures
        ones_below(y, n) == ones_below(x, n) + if j < n { 1int } else { 0int },
    decreases n,
{
    if n > 0 {
        lemma_ones_below_update(x, y, j, (n - 1) as nat);
        let m = (n - 1) as u64;
        if m != j {
            assert(((y >> m) & 1) == ((x >> m) & 1));
        }
    }
}

/// A prefix popcount lies between zero and the prefix length.
proof fn lemma_ones_below_bounds(x: u64, n: nat)
    ensures
        0 <= ones_below(x, n) <= n,
    decreases n,
{
    if n > 0 {
        lemma_ones_below_bounds(x, (n - 1) as nat);
        lemma_bits_le_one(x);
    }
}

/// A prefix popcount is zero exactly when every bit of the prefix is clear.
proof fn lemma_ones_below_zero(x: u64, n: nat)
    requires
        n <= 64,
    ensures
        (ones_below(x, n) == 0) <==> (forall|m: u64| m < n ==> #[trigger] ((x >> m) & 1) == 0),
    decreases n,
{
    lemma_ones_below_bounds(x, n);
    if n > 0 {
        lemma_ones_below_bounds(x, (n - 1) as nat);
        lemma_ones_below_zero(x, (n - 1) as nat);
        lemma_bits_le_one(x);
    }
}

/// A packed set of tile positions within one suit: bit `4r + c` stands for
/// copy `c` of rank `r`, 36 bits in use.
#[derive(Copy, Clone, Debug, PartialEq, Eq, Structural)]
pub struct RankSpecs(pub u64);

impl RankSpecs {
    /// Whether the position `i` is in the set.
    pub open spec fn has_id(self, i: int) -> bool {
        0 <= i < 36 && (self.0 >> (i as u64)) & 1 == 1
    }

    /// Only the 36 positions of one suit are in use.
    pub open spec fn fits(self) -> bool {
        self.0 >> 36 == 0
    }

    /// The number of positions in the set.
    pub open spec fn total(self) -> int {
        ones_below(self.0, 36)
    }

    /// How many copies of rank `r` the set holds.
    pub open spec fn copies_of(self, r: int) -> int {
        ones_below(self.0, (4 * r + 4) as nat) - ones_below(self.0, (4 * r) as nat)
    }

    pub fn new() -> (r: Self)
        ensures
            r.0 == 0,
            r.fits(),
            r.total() == 0,
            forall|i: int| !r.has_id(i),
            r.0 >> 28 == 0,
    {
        proof {
            RankSpecs(0).lemma_zero();
        }
        RankSpecs(0)
    }

    pub fn is_empty(&self) -> (r: bool)
        requires
            self.fits(),
        ensures
            r == (self.0 == 0),
            r == (self.total() == 0),
    {
        proof {
            if self.0 == 0 {
                self.lemma_zero();
            } else {
                self.lemma_nonempty();
            }
        }
        self.0 == 0
    }

    /// A non-zero word holds something.
    proof fn lemma_nonempty(self)
        requires
            self.fits(),
            self.0 != 0,
        ensures
            self.total() != 0,
    {
        let x = self.0;
        lemma_ones_below_zero(x, 36);
        broadcast use vstd::std_specs::bits::group_bits_axioms;

        let z = vstd::std_specs::bits::u64_trailing_zeros(x) as u64;
        assert(z < 36) by (bit_vector)
            requires x >> 36 == 0, z < 64, (x >> z) & 1u64 == 1u64;
        assert(((x >> z) & 1) != 0);
    }

    /// The number of positions held, counted bit by bit.
    pub fn count(&self) -> (r: usize)
        ensures
            r == ones_below(self.0, 36),
    {
        let x = self.0;
        let mut c: usize = 0;
        for i in 0..36usize
            invariant
                c == ones_below(x, i as nat),
                c <= i,
        {
            proof {
                lemma_bits_le_one(x);
            }
            if (x >> (i as u64)) & 1 == 1 {
                c += 1;
            }
        }
        c
    }

    pub fn clear(&mut self)
        ensures
            final(self).0 == 0,
    {
        self.0 = 0
    }

    /// Removes and returns the lowest position in the set.
    pub fn next(&mut self) -> (r: Option<RankSpec>)
        requires
            old(self).fits(),
        ensures
            old(self).0 == 0 ==> r is None && *final(self) == *old(self),
            old(self).0 != 0 ==> r is Some && {
                let i = (r->0).0 as int;
                &&& (r->0).wf()
                &&& old(self).has_id(i)
                &&& forall|j: int| 0 <= j < i ==> !old(self).has_id(j)
                &&& !final(self).has_id(i)
                &&& forall|j: int| 0 <= j < 36 && j != i ==> final(self).has_id(j)
                    == old(self).has_id(j)
                &&& final(self).fits()
                &&& final(self).total() == old(self).total() - 1
                &&& final(self).copies_of(i / 4) == old(self).copies_of(i / 4) - 1
                &&& forall|q: int| 0 <= q < 9 && q != i / 4 ==> final(self).copies_of(q)
                    == old(self).copies_of(q)
            },
            old(self).0 >> 28 == 0 ==> final(self).0 >> 28 == 0,
    {
        let x = self.0;
        if x != 0 {
            let z = x.trailing_zeros();
            proof {
                broadcast use vstd::std_specs::bits::group_bits_axioms;

                assert(x << (64 - z) as u64 == 0);
            }
            let t = x & (x - 1);
            proof {
                let z64 = z as u64;
                assert({
                    &&& z64 < 36
                    &&& (x >> z64) & 1 == 1
                    &&& (t >> z64) & 1 == 0
                    &&& (forall|m: u64| m < 64 && m != z64 ==> #[trigger] ((t >> m) & 1)
                        == ((x >> m) & 1))
                    &&& (forall|m: u64| m < z64 ==> #[trigger] ((x >> m) & 1) == 0)
                    &&& t >> 36 == 0
                    &&& (x >> 28 == 0 ==> t >> 28 == 0)
                }) by (bit_vector)
                    requires
                        x != 0,
                        x >> 36 == 0,
                        z64 < 64,
                        (x >> z64) & 1u64 == 1u64,
                        x << (64 - z64) as u64 == 0,
                        t == x & ((x - 1) as u64);
                lemma_ones_below_update(t, x, z64, 36);
                lemma_ones_below_update(t, x, z64, (4 * (z64 as int / 4) + 4) as nat);
                lemma_ones_below_update(t, x, z64, (4 * (z64 as int / 4)) as nat);
                assert forall|q: int| 0 <= q < 9 && q != z64 as int / 4 implies
                    RankSpecs(t).copies_of(q) == RankSpecs(x).copies_of(q) by {
                    lemma_ones_below_update(t, x, z64, (4 * q + 4) as nat);
                    lemma_ones_below_update(t, x, z64, (4 * q) as nat);
                }
            }
            self.0 = t;
            Some(RankSpec::from_id(z as usize))
        } else {
            None
        }
    }

    /// Puts position `rs` into the set; no effect if already there.
    pub fn add(&mut self, rs: RankSpec)
        requires
            old(self).fits(),
            rs.wf(),
        ensures
            final(self).has_id(rs.0 as int),
            forall|j: int| 0 <= j < 36 && j != rs.0 as int ==> final(self).has_id(j)
                == old(self).has_id(j),
            final(self).fits(),
            final(self).total() == old(self).total()
                + if old(self).has_id(rs.0 as int) { 0int } else { 1int },
            final(self).copies_of(rs.0 as int / 4) == old(self).copies_of(rs.0 as int / 4)
                + if old(self).has_id(rs.0 as int) { 0int } else { 1int },
            forall|q: int| 0 <= q < 9 && q != rs.0 as int / 4 ==> final(self).copies_of(q)
                == old(self).copies_of(q),
            old(self).0 >> 28 == 0 && rs.0 < 28 ==> final(self).0 >> 28 == 0,
    {
        let x = self.0;
        let i = rs.0 as u64;
        let y = x | (1u64 << i);
        proof {
            assert({
                &&& (y >> i) & 1 == 1
                &&& (forall|m: u64| m < 64 && m != i ==> #[trigger] ((y >> m) & 1)
                    == ((x >> m) & 1))
                &&& y >> 36 == 0
                &&& ((x >> i) & 1 == 1 ==> y == x)
                &&& (x >> 28 == 0 && i < 28 ==> y >> 28 == 0)
                &&& ((x >> i) & 1 == 0 || (x >> i) & 1 == 1)
            }) by (bit_vector)
                requires i < 36, x >> 36 == 0, y == x | (1u64 << i);
            if (x >> i) & 1 != 1 {
                lemma_ones_below_update(x, y, i, 36);
                lemma_ones_below_update(x, y, i, (4 * (i as int / 4) + 4) as nat);
                lemma_ones_below_update(x, y, i, (4 * (i as int / 4)) as nat);
                assert forall|q: int| 0 <= q < 9 && q != rs.0 as int / 4 implies
                    RankSpecs(y).copies_of(q) == RankSpecs(x).copies_of(q) by {
                    lemma_ones_below_update(x, y, i, (4 * q + 4) as nat);
                    lemma_ones_below_update(x, y, i, (4 * q) as nat);
                }
            }
        }
        self.0 = y;
    }

    /// Takes position `rs` out of the set; no effect if absent.
    pub fn del(&mut self, rs: RankSpec)
        requires
            old(self).fits(),
            rs.wf(),
        ensures
            !final(self).has_id(rs.0 as int),
            forall|j: int| 0 <= j < 36 && j != rs.0 as int ==> final(self).has_id(j)
                == old(self).has_id(j),
            final(self).fits(),
            final(self).total() == old(self).total()
                - if old(self).has_id(rs.0 as int) { 1int } else { 0int },
            final(self).copies_of(rs.0 as int / 4) == old(self).copies_of(rs.0 as int / 4)
                - if old(self).has_id(rs.0 as int) { 1int } else { 0int },
            forall|q: int| 0 <= q < 9 && q != rs.0 as int / 4 ==> final(self).copies_of(q)
                == old(self).copies_of(q),
            old(self).0 >> 28 == 0 ==> final(self).0 >> 28 == 0,
    {
        let x = self.0;
        let i = rs.0 as u64;
        let y = x & !(1u64 << i);
        proof {
            assert({
                &&& (y >> i) & 1 == 0
                &&& (forall|m: u64| m < 64 && m != i ==> #[trigger] ((y >> m) & 1)
                    == ((x >> m) & 1))
                &&& y >> 36 == 0
                &&& ((x >> i) & 1 == 0 ==> y == x)
                &&& ((x >> i) & 1 == 0 || (x >> i) & 1 == 1)
                &&& (x >> 28 == 0 ==> y >> 28 == 0)
            }) by (bit_vector)
                requires i < 36, x >> 36 == 0, y == x & !(1u64 << i);
            if (x >> i) & 1 == 1 {
                lemma_ones_below_update(y, x, i, 36);
                lemma_ones_below_update(y, x, i, (4 * (i as int / 4) + 4) as nat);
                lemma_ones_below_update(y, x, i, (4 * (i as int / 4)) as nat);
                assert forall|q: int| 0 <= q < 9 && q != rs.0 as int / 4 implies
                    RankSpecs(y).copies_of(q) == RankSpecs(x).copies_of(q) by {
                    lemma_ones_below_update(y, x, i, (4 * q + 4) as nat);
                    lemma_ones_below_update(y, x, i, (4 * q) as nat);
                }
            }
        }
        self.0 = y;
    }

    pub fn has(&self, rs: RankSpec) -> (r: bool)
        requires
            rs.wf(),
        ensures
            r == self.has_id(rs.0 as int),
    {
        let x = self.0;
        let i = rs.0 as u64;
        proof {
            assert((x & (1u64 << i) != 0) == ((x >> i) & 1 == 1)) by (bit_vector)
                requires i < 36;
        }
        x & (1 << i) != 0
    }

    /// Removes and returns one position of rank `r`: the lowest-numbered
    /// copy still held, if the rank has any.
    pub fn extract(&mut self, r: Rank) -> (res: Option<RankSpec>)
        requires
            old(self).fits(),
            r.wf(),
        ensures
            final(self).fits(),
            old(self).copies_of(r.0 as int) == 0 ==> res is None && *final(self) == *old(self),
            old(self).copies_of(r.0 as int) != 0 ==> res is Some && {
                let i = (res->0).0 as int;
                &&& (res->0).wf()
                &&& 4 * r.0 <= i < 4 * r.0 + 4
                &&& old(self).has_id(i)
                &&& !final(self).has_id(i)
                &&& forall|j: int| 0 <= j < 36 && j != i ==> final(self).has_id(j)
                    == old(self).has_id(j)
                &&& final(self).total() == old(self).total() - 1
                &&& final(self).copies_of(r.0 as int) == old(self).copies_of(r.0 as int) - 1
                &&& forall|q: int| 0 <= q < 9 && q != r.0 as int ==>
                    final(self).copies_of(q) == old(self).copies_of(q)
            },
            old(self).0 >> 28 == 0 ==> final(self).0 >> 28 == 0,
    {
        let x = self.0;
        let k = r.0 as u64;
        let p = x & (0xf << (4 * k));
        proof {
            Self::lemma_copies_window(x, k);
        }
        if p != 0 {
            let z = p.trailing_zeros();
            proof {
                broadcast use vstd::std_specs::bits::group_bits_axioms;

                assert(p << (64 - z) as u64 == 0);
            }
            let y = x & !(1u64 << (z as u64));
            proof {
                let z64 = z as u64;
                assert({
                    &&& 4 * k <= z64 < 4 * k + 4
                    &&& (x >> z64) & 1 == 1
                    &&& (y >> z64) & 1 == 0
                    &&& (forall|m: u64| m < 64 && m != z64 ==> #[trigger] ((y >> m) & 1)
                        == ((x >> m) & 1))
                    &&& y >> 36 == 0
                    &&& z64 < 36
                    &&& (x >> 28 == 0 ==> y >> 28 == 0)
                }) by (bit_vector)
                    requires
                        k < 9,
                        p == x & (0xfu64 << (4 * k)),
                        p != 0,
                        x >> 36 == 0,
                        z64 < 64,
                        (p >> z64) & 1u64 == 1u64,
                        p << (64 - z64) as u64 == 0,
                        y == x & !(1u64 << z64);
                lemma_ones_below_update(y, x, z64, 36);
                lemma_ones_below_update(y, x, z64, (4 * k + 4) as nat);
                lemma_ones_below_update(y, x, z64, (4 * k) as nat);
                assert forall|q: int| 0 <= q < 9 && q != r.0 as int implies
                    RankSpecs(y).copies_of(q) == RankSpecs(x).copies_of(q) by {
                    lemma_ones_below_update(y, x, z64, (4 * q + 4) as nat);
                    lemma_ones_below_update(y, x, z64, (4 * q) as nat);
                }
            }
            self.0 = y;
            Some(RankSpec::from_id(z as usize))
        } else {
            proof {
                let kk = r.0 as int;
                assert(forall|m: u64| 4 * k <= m < 4 * k + 4 ==> #[trigger] ((x >> m) & 1) == 0)
                    by (bit_vector)
                    requires k < 9, x & (0xfu64 << (4 * k)) == 0;
                Self::lemma_copies_empty(x, k);
            }
            None
        }
    }

    /// A zero word holds nothing.
    pub proof fn lemma_zero(self)
        requires
            self.0 == 0,
        ensures
            self.fits(),
            self.total() == 0,
            forall|i: int| !self.has_id(i),
            self.0 >> 28 == 0,
    {
        let x = self.0;
        lemma_ones_below_zero(x, 36);
        assert((forall|m: u64| #[trigger] ((x >> m) & 1) == 0) && x >> 36 == 0
            && x >> 28 == 0) by (bit_vector)
            requires x == 0;
    }

    /// A word that counts nothing is the zero word.
    pub proof fn lemma_empty_is_zero(self)
        requires
            self.fits(),
            self.total() == 0,
        ensures
            self.0 == 0,
    {
        if self.0 != 0 {
            self.lemma_nonempty();
        }
    }

    /// The copies of rank `k` are exactly the set bits in its 4-bit window.
    proof fn lemma_copies_window(x: u64, k: u64)
        requires
            k < 9,
        ensures
            RankSpecs(x).copies_of(k as int) == ((x >> (4 * k)) & 1) + ((x >> (4 * k + 1)) & 1)
                + ((x >> (4 * k + 2)) & 1) + ((x >> (4 * k + 3)) & 1),
            (x & (0xfu64 << (4 * k)) != 0) == !(((x >> (4 * k)) & 1) == 0 && ((x >> (4 * k + 1))
                & 1) == 0 && ((x >> (4 * k + 2)) & 1) == 0 && ((x >> (4 * k + 3)) & 1) == 0),
    {
        let kk = k as int;
        assert(ones_below(x, (4 * kk + 4) as nat) == ones_below(x, (4 * kk + 3) as nat)
            + ((x >> ((4 * kk + 3) as u64)) & 1));
        assert(ones_below(x, (4 * kk + 3) as nat) == ones_below(x, (4 * kk + 2) as nat)
            + ((x >> ((4 * kk + 2) as u64)) & 1));
        assert(ones_below(x, (4 * kk + 2) as nat) == ones_below(x, (4 * kk + 1) as nat)
            + ((x >> ((4 * kk + 1) as u64)) & 1));
        assert(ones_below(x, (4 * kk + 1) as nat) == ones_below(x, (4 * kk) as nat)
            + ((x >> ((4 * kk) as u64)) & 1));
        assert((x & (0xfu64 << (4 * k)) != 0) == !(((x >> (4 * k)) & 1) == 0 && ((x >> (4 * k
            + 1)) & 1) == 0 && ((x >> (4 * k + 2)) & 1) == 0 && ((x >> (4 * k + 3)) & 1) == 0))
            by (bit_vector)
            requires k < 9;
        assert((4 * k) as u64 == (4 * kk) as u64 && (4 * k + 1) as u64 == (4 * kk + 1) as u64
            && (4 * k + 2) as u64 == (4 * kk + 2) as u64 && (4 * k + 3) as u64
            == (4 * kk + 3) as u64);
    }

    /// A rank never counts more than its four physical copies, and a held
    /// position witnesses at least one.
    pub proof fn lemma_copies_bounds(self, k: int)
        requires
            0 <= k < 9,
        ensures
            0 <= self.copies_of(k) <= 4,
            forall|i: int| 4 * k <= i < 4 * k + 4 && self.has_id(i) ==> self.copies_of(k) >= 1,
    {
        let x = self.0;
        Self::lemma_copies_window(x, k as u64);
        lemma_bits_le_one(x);
        assert forall|i: int| 4 * k <= i < 4 * k + 4 && self.has_id(i) implies
            self.copies_of(k) >= 1 by {
            assert((x >> (i as u64)) & 1 == 1);
        }
    }

    /// An empty 4-bit window means the rank has no copies.
    proof fn lemma_copies_empty(x: u64, k: u64)
        requires
            k < 9,
            forall|m: u64| 4 * k <= m < 4 * k + 4 ==> #[trigger] ((x >> m) & 1) == 0,
        ensures
            RankSpecs(x).copies_of(k as int) == 0,
    {
        Self::lemma_copies_window(x, k);
        assert(((x >> (4 * k)) & 1) == 0);
        assert(((x >> (4 * k + 1)) & 1) == 0);
        assert(((x >> (4 * k + 2)) & 1) == 0);
        assert(((x >> (4 * k + 3)) & 1) == 0);
    }
}

/// A tile-multiset: per-suit packed position sets over all 136 identities.
#[derive(Debug)]
pub struct Tiles(pub Vec<RankSpecs>);

impl Clone for Tiles {
    fn clone(&self) -> (r: Self)
        ensures
            r.0@ == self.0@,
    {
        let r = Tiles(self.0.clone());
        proof {
            assert(r.0@ =~= self.0@);
        }
        r
    }
}

impl Tiles {
    /// One packed word per suit; the honor word uses only seven ranks.
    pub open spec fn wf(self) -> bool {
        &&& self.0.len() == 4
        &&& forall|s: int| 0 <= s < 4 ==> (#[trigger] self.0[s]).fits()
        &&& self.0[3].0 >> 28 == 0
    }

    /// Whether the physical tile with identifier `t` is held.
    pub open spec fn has_tile(self, t: int) -> bool {
        0 <= t < 136 && self.0[t / 36].has_id(t % 36)
    }

    /// The number of tiles held.
    pub open spec fn total(self) -> int {
        self.0[0].total() + self.0[1].total() + self.0[2].total() + self.0[3].total()
    }

    /// How many copies of the figure with identifier `f` are held.
    pub open spec fn copies_of_figure(self, f: int) -> int {
        self.0[f / 9].copies_of(f % 9)
    }

    pub fn new() -> (r: Self)
        ensures
            r.wf(),
            r.total() == 0,
            forall|t: int| !r.has_tile(t),
    {
        let mut v: Vec<RankSpecs> = Vec::new();
        v.push(RankSpecs::new());
        v.push(RankSpecs::new());
        v.push(RankSpecs::new());
        v.push(RankSpecs::new());
        Tiles(v)
    }

    pub fn is_empty(&self) -> (r: bool)
        requires
            self.wf(),
        ensures
            r == (self.total() == 0),
    {
        proof {
            lemma_ones_below_bounds(self.0[0].0, 36);
            lemma_ones_below_bounds(self.0[1].0, 36);
            lemma_ones_below_bounds(self.0[2].0, 36);
            lemma_ones_below_bounds(self.0[3].0, 36);
        }
        self.count() == 0
    }

    pub fn count(&self) -> (r: usize)
        requires
            self.wf(),
        ensures
            r == self.total(),
    {
        proof {
            lemma_ones_below_bounds(self.0[0].0, 36);
            lemma_ones_below_bounds(self.0[1].0, 36);
            lemma_ones_below_bounds(self.0[2].0, 36);
            lemma_ones_below_bounds(self.0[3].0, 36);
        }
        self.0[0].count() + self.0[1].count() + self.0[2].count() + self.0[3].count()
    }

    pub fn clear(&mut self)
        ensures
            final(self).wf(),
            final(self).total() == 0,
            forall|t: int| !final(self).has_tile(t),
    {
        let mut v: Vec<RankSpecs> = Vec::new();
        v.push(RankSpecs::new());
        v.push(RankSpecs::new());
        v.push(RankSpecs::new());
        v.push(RankSpecs::new());
        self.0 = v;
    }

    /// The suit word and in-suit position of tile identifier `t`.
    proof fn lemma_tile_split(t: int)
        requires
            0 <= t < 136,
        ensures
            t / 36 == t / 4 / 9,
            t % 36 == (t / 4 % 9) * 4 + t % 4,
            0 <= t / 36 < 4,
            0 <= t % 36 < 36,
            t / 36 == 3 ==> t % 36 < 28,
            t == 36 * (t / 36) + t % 36,
    {
        assert(t / 36 == t / 4 / 9 && t % 36 == (t / 4 % 9) * 4 + t % 4 && (t / 36 == 3
            ==> t % 36 < 28) && t == 36 * (t / 36) + t % 36) by (nonlinear_arith)
            requires 0 <= t < 136;
    }

    /// Joining a suit and a position gives back the parts.
    proof fn lemma_tile_join(s: int, i: int)
        requires
            0 <= s < 4,
            0 <= i < 36,
        ensures
            (36 * s + i) / 36 == s,
            (36 * s + i) % 36 == i,
            0 <= 36 * s + i < 144,
        decreases s,
    {
        assert((36 * s + i) / 36 == s && (36 * s + i) % 36 == i) by (nonlinear_arith)
            requires 0 <= s < 4, 0 <= i < 36;
    }

    pub fn has(&self, t: Tile) -> (r: bool)
        requires
            self.wf(),
            t.wf(),
        ensures
            r == self.has_tile(t.0 as int),
    {
        let s = t.suit().id();
        let rs = t.rankspec();
        proof {
            Self::lemma_tile_split(t.0 as int);
        }
        self.0[s].has(rs)
    }

    /// Puts `t` into the multiset; no effect if its bit is already set.
    pub fn add(&mut self, t: Tile)
        requires
            old(self).wf(),
            t.wf(),
        ensures
            final(self).wf(),
            final(self).has_tile(t.0 as int),
            forall|j: int| 0 <= j < 136 && j != t.0 as int ==> final(self).has_tile(j)
                == old(self).has_tile(j),
            final(self).total() == old(self).total()
                + if old(self).has_tile(t.0 as int) { 0int } else { 1int },
            final(self).copies_of_figure(t.0 as int / 4)
                == old(self).copies_of_figure(t.0 as int / 4)
                + if old(self).has_tile(t.0 as int) { 0int } else { 1int },
            forall|g: int| 0 <= g < 34 && g != t.0 as int / 4 ==>
                final(self).copies_of_figure(g) == old(self).copies_of_figure(g),
    {
        let s = t.suit().id();
        let rs = t.rankspec();
        proof {
            Self::lemma_tile_split(t.0 as int);
            assert(t.0 as int / 4 == 9 * (s as int) + rs.0 as int / 4
                && t.0 as int / 4 / 9 == s as int
                && t.0 as int / 4 % 9 == rs.0 as int / 4) by (nonlinear_arith)
                requires
                    t.0 as int / 36 == s as int,
                    t.0 as int % 36 == rs.0 as int,
                    0 <= t.0 < 136,
                    0 <= s < 4,
                    0 <= rs.0 < 36;
        }
        let mut w = self.0[s];
        w.add(rs);
        self.0.set(s, w);
        proof {
            assert forall|j: int| 0 <= j < 136 && j != t.0 as int implies final(self).has_tile(j)
                == old(self).has_tile(j) by {
                Self::lemma_tile_split(j);
            }
            assert forall|g: int| 0 <= g < 34 && g != t.0 as int / 4 implies
                final(self).copies_of_figure(g) == old(self).copies_of_figure(g) by {
                assert(g == 9 * (g / 9) + g % 9);
            }
        }
    }

    /// Takes `t` out of the multiset; no effect if absent.
    pub fn del(&mut self, t: Tile)
        requires
            old(self).wf(),
            t.wf(),
        ensures
            final(self).wf(),
            !final(self).has_tile(t.0 as int),
            forall|j: int| 0 <= j < 136 && j != t.0 as int ==> final(self).has_tile(j)
                == old(self).has_tile(j),
            final(self).total() == old(self).total()
                - if old(self).has_tile(t.0 as int) { 1int } else { 0int },
            final(self).copies_of_figure(t.0 as int / 4)
                == old(self).copies_of_figure(t.0 as int / 4)
                - if old(self).has_tile(t.0 as int) { 1int } else { 0int },
            forall|g: int| 0 <= g < 34 && g != t.0 as int / 4 ==>
                final(self).copies_of_figure(g) == old(self).copies_of_figure(g),
    {
        let s = t.suit().id();
        let rs = t.rankspec();
        proof {
            Self::lemma_tile_split(t.0 as int);
            assert(t.0 as int / 4 == 9 * (s as int) + rs.0 as int / 4
                && t.0 as int / 4 / 9 == s as int
                && t.0 as int / 4 % 9 == rs.0 as int / 4) by (nonlinear_arith)
                requires
                    t.0 as int / 36 == s as int,
                    t.0 as int % 36 == rs.0 as int,
                    0 <= t.0 < 136,
                    0 <= s < 4,
                    0 <= rs.0 < 36;
        }
        let mut w = self.0[s];
        w.del(rs);
        self.0.set(s, w);
        proof {
            assert forall|j: int| 0 <= j < 136 && j != t.0 as int implies final(self).has_tile(j)
                == old(self).has_tile(j) by {
                Self::lemma_tile_split(j);
            }
            assert forall|g: int| 0 <= g < 34 && g != t.0 as int / 4 implies
                final(self).copies_of_figure(g) == old(self).copies_of_figure(g) by {
                assert(g == 9 * (g / 9) + g % 9);
            }
        }
    }

    /// Removes and returns the lowest-numbered tile held.
    pub fn next(&mut self) -> (r: Option<Tile>)
        requires
            old(self).wf(),
        ensures
            final(self).wf(),
            old(self).total() == 0 ==> r is None && *final(self) == *old(self),
            old(self).total() != 0 ==> r is Some && {
                let t = (r->0).0 as int;
                &&& (r->0).wf()
                &&& old(self).has_tile(t)
                &&& !final(self).has_tile(t)
                &&& forall|j: int| 0 <= j < 136 && j != t ==> final(self).has_tile(j)
                    == old(self).has_tile(j)
                &&& forall|j: int| 0 <= j < t ==> !old(self).has_tile(j)
                &&& final(self).total() == old(self).total() - 1
                &&& final(self).copies_of_figure(t / 4) == old(self).copies_of_figure(t / 4) - 1
                &&& forall|g: int| 0 <= g < 34 && g != t / 4 ==> final(self).copies_of_figure(g)
                    == old(self).copies_of_figure(g)
            },
    {
        for s in 0..4usize
            invariant
                self.wf(),
                *self == *old(self),
                forall|u: int| 0 <= u < s ==> (#[trigger] self.0[u]).total() == 0,
        {
            let mut w = self.0[s];
            let got = w.next();
            if let Some(rs) = got {
                proof {
                    Self::lemma_tile_join(s as int, rs.0 as int);
                    if s == 3 {
                        assert(self.0[s as int].has_id(rs.0 as int));
                        let x = self.0[3 as int].0;
                        let i = rs.0 as u64;
                        assert((x >> i) & 1 == 1 ==> i < 28) by (bit_vector)
                            requires x >> 28 == 0, i < 36;
                    }
                }
                let t = Tile::from_suit_rankspec(Suit::from_id(s), rs);
                self.0.set(s, w);
                proof {
                    assert forall|j: int| 0 <= j < 136 && j != t.0 as int implies
                        final(self).has_tile(j) == old(self).has_tile(j) by {
                        Self::lemma_tile_split(j);
                    }
                    assert forall|j: int| 0 <= j < t.0 as int implies
                        !old(self).has_tile(j) by {
                        Self::lemma_tile_split(j);
                        if j / 36 < s as int {
                            old(self).0[j / 36].lemma_empty_is_zero();
                            old(self).0[j / 36].lemma_zero();
                        }
                    }
                    assert(t.0 as int / 4 == 9 * (s as int) + rs.0 as int / 4
                        && t.0 as int / 4 / 9 == s as int
                        && t.0 as int / 4 % 9 == rs.0 as int / 4) by (nonlinear_arith)
                        requires t.0 == 36 * (s as int) + rs.0 as int, 0 <= s < 4, 0 <= rs.0 < 36;
                    assert forall|g: int| 0 <= g < 34 && g != t.0 as int / 4 implies
                        final(self).copies_of_figure(g) == old(self).copies_of_figure(g) by {
                        assert(g == 9 * (g / 9) + g % 9);
                    }
                    lemma_ones_below_bounds(old(self).0[0].0, 36);
                    lemma_ones_below_bounds(old(self).0[1].0, 36);
                    lemma_ones_below_bounds(old(self).0[2].0, 36);
                    lemma_ones_below_bounds(old(self).0[3].0, 36);
                    lemma_ones_below_bounds(w.0, 36);
                }
                return Some(t);
            } else {
                proof {
                    self.0[s as int].lemma_zero();
                }
            }
        }
        None
    }

    /// Removes and returns one physical copy of `figure`: the engine does
    /// not promise which copy.
    #[verifier::rlimit(50)]
    pub fn extract_figure(&mut self, figure: Figure) -> (r: Option<Tile>)
        requires
            old(self).wf(),
            figure.wf(),
        ensures
            final(self).wf(),
            old(self).copies_of_figure(figure.0 as int) == 0 ==> r is None
                && *final(self) == *old(self),
            old(self).copies_of_figure(figure.0 as int) != 0 ==> r is Some && {
                let t = (r->0).0 as int;
                &&& (r->0).wf()
                &&& t / 4 == figure.0 as int
                &&& old(self).has_tile(t)
                &&& !final(self).has_tile(t)
                &&& forall|j: int| 0 <= j < 136 && j != t ==> final(self).has_tile(j)
                    == old(self).has_tile(j)
                &&& final(self).total() == old(self).total() - 1
                &&& final(self).copies_of_figure(figure.0 as int)
                    == old(self).copies_of_figure(figure.0 as int) - 1
                &&& forall|g: int| 0 <= g < 34 && g != figure.0 as int ==>
                    final(self).copies_of_figure(g) == old(self).copies_of_figure(g)
            },
    {
        let s = figure.suit().id();
        let rank = figure.rank();
        let mut w = self.0[s];
        let got = w.extract(rank);
        proof {
            assert(figure.0 as int == 9 * (figure.0 as int / 9) + figure.0 as int % 9);
        }
        if let Some(rs) = got {
            proof {
                Self::lemma_tile_join(s as int, rs.0 as int);
                assert((36 * (s as int) + rs.0 as int) / 4 == 9 * (s as int) + rs.0 as int / 4)
                    by (nonlinear_arith)
                    requires 0 <= s < 4, 0 <= rs.0 < 36;
            }
            let t = Tile::from_suit_rankspec(Suit::from_id(s), rs);
            self.0.set(s, w);
            proof {
                assert forall|j: int| 0 <= j < 136 && j != t.0 as int implies
                    final(self).has_tile(j) == old(self).has_tile(j) by {
                    Self::lemma_tile_split(j);
                }
                assert forall|g: int| 0 <= g < 34 && g != figure.0 as int implies
                    final(self).copies_of_figure(g) == old(self).copies_of_figure(g) by {
                    assert(g == 9 * (g / 9) + g % 9);
                }
            }
            Some(t)
        } else {
            None
        }
    }
}

impl Tiles {
    /// How many copies of each figure a committed group consumes.
    pub open spec fn group_need(g: Group, f: int) -> int {
        let sh = g.shape_spec().0 as int;
        let gf = g.figure_spec().0 as int;
        if sh == 0 {
            if gf <= f <= gf + 2 { 1int } else { 0int }
        } else if sh == 1 {
            if f == gf { 3int } else { 0int }
        } else {
            if f == gf { 4int } else { 0int }
        }
    }

    /// Whether a group's shape can exist at its figure at all: runs need a
    /// numeral suit and room for three consecutive ranks.
    pub open spec fn group_valid(g: Group) -> bool {
        g.shape_spec().0 != 0 || (g.figure_spec().0 as int / 9 < 3
            && g.figure_spec().0 as int % 9 <= 6)
    }

    /// How many tiles the group consumes in all.
    pub open spec fn group_size(g: Group) -> int {
        let sh = g.shape_spec().0 as int;
        if sh == 0 || sh == 1 { 3int } else { 4int }
    }

    /// Whether this multiset can supply the whole group.
    pub open spec fn group_ok(self, g: Group) -> bool {
        &&& Self::group_valid(g)
        &&& forall|f: int| 0 <= f < 34 ==> self.copies_of_figure(f) >= Self::group_need(g, f)
    }

    /// Every figure has at most four copies, and a held tile witnesses one.
    pub proof fn lemma_copies_figure_bounds(self, f: int)
        requires
            self.wf(),
            0 <= f < 34,
        ensures
            0 <= self.copies_of_figure(f) <= 4,
            forall|t: int| 0 <= t < 136 && t / 4 == f && self.has_tile(t)
                ==> self.copies_of_figure(f) >= 1,
    {
        assert(f == 9 * (f / 9) + f % 9);
        self.0[f / 9].lemma_copies_bounds(f % 9);
        assert forall|t: int| 0 <= t < 136 && t / 4 == f && self.has_tile(t) implies
            self.copies_of_figure(f) >= 1 by {
            Self::lemma_tile_split(t);
            assert(t % 36 == 4 * (f % 9) + t % 4) by (nonlinear_arith)
                requires 0 <= t < 136, t / 4 == f, f == 9 * (f / 9) + f % 9, t / 36 == f / 9;
            assert(self.0[f / 9].has_id(t % 36));
        }
    }

    /// Empties the multiset, counting each held tile's figure.
    pub fn figures(&mut self) -> (r: Figures)
        requires
            old(self).wf(),
        ensures
            final(self).wf(),
            final(self).total() == 0,
            r.wf(),
            forall|f: int| 0 <= f < 34 ==> r.count_of_figure(f)
                == old(self).copies_of_figure(f),
    {
        let mut figures = Figures::new();
        proof {
            assert forall|f: int| 0 <= f < 34 implies
                0 <= #[trigger] old(self).copies_of_figure(f) <= 4 by {
                old(self).lemma_copies_figure_bounds(f);
            }
        }
        loop
            invariant
                self.wf(),
                figures.wf(),
                forall|f: int| 0 <= f < 34 ==> 0 <= #[trigger] old(self).copies_of_figure(f)
                    <= 4,
                forall|f: int| 0 <= f < 34 ==> figures.count_of_figure(f)
                    + self.copies_of_figure(f) == old(self).copies_of_figure(f),
                forall|f: int| 0 <= f < 34 ==> 0 <= self.copies_of_figure(f),
            ensures
                self.wf(),
                self.total() == 0,
                figures.wf(),
                forall|f: int| 0 <= f < 34 ==> figures.count_of_figure(f)
                    == old(self).copies_of_figure(f) - self.copies_of_figure(f),
                forall|f: int| 0 <= f < 34 ==> self.copies_of_figure(f) == 0,
            decreases self.total(),
        {
            proof {
                lemma_ones_below_bounds(self.0[0 as int].0, 36);
                lemma_ones_below_bounds(self.0[1 as int].0, 36);
                lemma_ones_below_bounds(self.0[2 as int].0, 36);
                lemma_ones_below_bounds(self.0[3 as int].0, 36);
            }
            let ghost pre = *self;
            let got = self.next();
            if let Some(tile) = got {
                let f = tile.figure();
                proof {
                    let f0 = tile.0 as int / 4;
                    pre.lemma_copies_figure_bounds(f0);
                    assert(pre.copies_of_figure(f0) >= 1);
                    assert(figures.count_of_figure(f0) + pre.copies_of_figure(f0)
                        == old(self).copies_of_figure(f0));
                    assert(old(self).copies_of_figure(f0) <= 4);
                    assert forall|g: int| 0 <= g < 34 implies 0 <= self.copies_of_figure(g) by {
                        self.lemma_copies_figure_bounds(g);
                    }
                }
                figures.add(f);
            } else {
                proof {
                    lemma_ones_below_bounds(self.0[0 as int].0, 36);
                    lemma_ones_below_bounds(self.0[1 as int].0, 36);
                    lemma_ones_below_bounds(self.0[2 as int].0, 36);
                    lemma_ones_below_bounds(self.0[3 as int].0, 36);
                    assert forall|f: int| 0 <= f < 34 implies self.copies_of_figure(f) == 0 by {
                        assert(f == 9 * (f / 9) + f % 9);
                        self.0[f / 9].lemma_empty_is_zero();
                        Self::lemma_window_of_empty(self.0[f / 9], f % 9);
                    }
                }
                break;
            }
        }
        figures
    }

    /// An empty word has empty rank windows.
    proof fn lemma_window_of_empty(w: RankSpecs, k: int)
        requires
            w.0 == 0,
            0 <= k < 9,
        ensures
            w.copies_of(k) == 0,
    {
        w.lemma_zero();
        w.lemma_copies_bounds(k);
        RankSpecs::lemma_copies_window(w.0, k as u64);
        assert(forall|m: u64| #[trigger] ((0u64 >> m) & 1) == 0) by (bit_vector);
    }

    /// Removes the exact tiles of a committed group, or fails atomically:
    /// on failure the multiset is unchanged.
    pub fn extract_set(&mut self, set: Group) -> (r: Option<Vec<Tile>>)
        requires
            old(self).wf(),
        ensures
            final(self).wf(),
            (r is Some) <==> old(self).group_ok(set),
            r is None ==> final(self).0@ == old(self).0@,
            r is Some ==> {
                let v = r->0;
                &&& v@.len() == Self::group_size(set)
                &&& forall|i: int| 0 <= i < v@.len() ==> (#[trigger] v@[i]).wf()
                    && old(self).has_tile(v@[i].0 as int)
                &&& forall|i: int| 0 <= i < v@.len() ==> (#[trigger] v@[i]).0 as int / 4
                    == if set.shape_spec().0 == 0 { set.figure_spec().0 + i } else {
                        set.figure_spec().0 as int
                    }
                &&& forall|f: int| 0 <= f < 34 ==> final(self).copies_of_figure(f)
                    == old(self).copies_of_figure(f) - Self::group_need(set, f)
                &&& final(self).total() == old(self).total() - Self::group_size(set)
            },
    {
        proof {
            assert forall|f: int| 0 <= f < 34 implies
                0 <= #[trigger] old(self).copies_of_figure(f) <= 4 by {
                old(self).lemma_copies_figure_bounds(f);
            }
        }
        let w0 = self.0[0];
        let w1 = self.0[1];
        let w2 = self.0[2];
        let w3 = self.0[3];
        let shape = set.shape();
        let figure = set.figure();
        if shape.id() == 0 {
            if !(figure.id() / 9 < 3 && figure.id() % 9 <= 6) {
                return None;
            }
            let f1 = Figure(figure.0 + 1);
            let f2 = Figure(figure.0 + 2);
            proof {
                assert(f1.0 as int / 9 == figure.0 as int / 9 && f2.0 as int / 9
                    == figure.0 as int / 9) by (nonlinear_arith)
                    requires figure.0 < 34, figure.0 as int / 9 < 3, figure.0 as int % 9 <= 6,
                        f1.0 == figure.0 + 1, f2.0 == figure.0 + 2;
            }
            let got0 = self.extract_figure(figure);
            let got1 = self.extract_figure(f1);
            let got2 = self.extract_figure(f2);
            match (got0, got1, got2) {
                (Some(t0), Some(t1), Some(t2)) => {
                    let mut v: Vec<Tile> = Vec::new();
                    v.push(t0);
                    v.push(t1);
                    v.push(t2);
                    Some(v)
                },
                _ => {
                    self.0.set(0, w0);
                    self.0.set(1, w1);
                    self.0.set(2, w2);
                    self.0.set(3, w3);
                    proof {
                        assert(self.0@ =~= old(self).0@);
                    }
                    None
                },
            }
        } else {
            let n: usize = if shape.id() == 1 { 3 } else { 4 };
            let mut v: Vec<Tile> = Vec::new();
            loop
                invariant
                    self.wf(),
                    3 <= n <= 4,
                    n == Self::group_size(set),
                    set.shape_spec().0 != 0,
                    figure == set.figure_spec(),
                    figure.wf(),
                    v@.len() <= n,
                    forall|f: int| 0 <= f < 34 ==> 0 <= #[trigger] old(self).copies_of_figure(f)
                    <= 4,
                    forall|i: int| 0 <= i < v@.len() ==> (#[trigger] v@[i]).wf()
                        && old(self).has_tile(v@[i].0 as int)
                        && v@[i].0 as int / 4 == figure.0 as int,
                    self.copies_of_figure(figure.0 as int)
                        == old(self).copies_of_figure(figure.0 as int) - v@.len(),
                    forall|f: int| 0 <= f < 34 && f != figure.0 as int ==>
                        self.copies_of_figure(f) == old(self).copies_of_figure(f),
                    forall|j: int| 0 <= j < 136 && #[trigger] self.has_tile(j)
                        ==> old(self).has_tile(j),
                    self.total() == old(self).total() - v@.len(),
                ensures
                    self.wf(),
                    v@.len() == n || self.copies_of_figure(figure.0 as int) == 0,
                    v@.len() <= n,
                    forall|i: int| 0 <= i < v@.len() ==> (#[trigger] v@[i]).wf()
                        && old(self).has_tile(v@[i].0 as int)
                        && v@[i].0 as int / 4 == figure.0 as int,
                    self.copies_of_figure(figure.0 as int)
                        == old(self).copies_of_figure(figure.0 as int) - v@.len(),
                    forall|f: int| 0 <= f < 34 && f != figure.0 as int ==>
                        self.copies_of_figure(f) == old(self).copies_of_figure(f),
                    self.total() == old(self).total() - v@.len(),
                decreases n - v@.len(),
            {
                if v.len() == n {
                    break;
                }
                let got = self.extract_figure(figure);
                if let Some(t) = got {
                    v.push(t);
                } else {
                    break;
                }
            }
            if v.len() == n {
                proof {
                    self.lemma_copies_figure_bounds(figure.0 as int);
                }
                Some(v)
            } else {
                proof {
                    self.lemma_copies_figure_bounds(figure.0 as int);
                }
                self.0.set(0, w0);
                self.0.set(1, w1);
                self.0.set(2, w2);
                self.0.set(3, w3);
                proof {
                    assert(self.0@ =~= old(self).0@);
                }
                None
            }
        }
    }
}

/// One step in a history of tile-multiset operations, as the executable
/// operations promise it: an insertion of a tile not then held, or an
/// extraction that succeeded.  `Tiles::add` establishes the first form of
/// relation between its old and new state, and a `Some` result of
/// `Tiles::extract_figure` or `Tiles::next` the second.
pub enum TileOp {
    /// A tile was put in; it was absent before.
    Insert(Tile),
    /// Some held copy of a figure was taken out.
    Remove(Figure),
}

/// How one operation relates a multiset to its successor.
pub open spec fn op_step(a: Tiles, b: Tiles, op: TileOp) -> bool {
    match op {
        TileOp::Insert(t) => {
            &&& t.wf()
            &&& !a.has_tile(t.0 as int)
            &&& b.has_tile(t.0 as int)
            &&& forall|j: int| 0 <= j < 136 && j != t.0 as int ==> b.has_tile(j)
                == a.has_tile(j)
            &&& b.total() == a.total() + 1
        },
        TileOp::Remove(f) => exists|t: int| {
            &&& 0 <= t < 136
            &&& #[trigger] a.has_tile(t)
            &&& t / 4 == f.0 as int
            &&& !b.has_tile(t)
            &&& (forall|j: int| 0 <= j < 136 && j != t ==> b.has_tile(j) == a.has_tile(j))
            &&& b.total() == a.total() - 1
        },
    }
}

/// Whether a whole history of operations leads from `a` to `b`.
pub open spec fn ops_relate(a: Tiles, b: Tiles, ops: Seq<TileOp>) -> bool
    decreases ops.len(),
{
    if ops.len() == 0 {
        a == b
    } else {
        exists|m: Tiles| #[trigger] op_step(a, m, ops[0]) && ops_relate(m, b, ops.drop_first())
    }
}

/// How many of the operations are insertions.
pub open spec fn insert_count(ops: Seq<TileOp>) -> int
    decreases ops.len(),
{
    if ops.len() == 0 {
        0
    } else {
        (if ops[0] is Insert { 1int } else { 0int }) + insert_count(ops.drop_first())
    }
}

/// The counting law: after any history of insertions of absent tiles and
/// successful extractions, the total is the starting total plus the
/// insertions minus the extractions.  That no extraction ever yields a
/// tile that was not held is part of the history itself: every removal
/// step names a tile held at its moment.
pub proof fn lemma_multiset_balance(a: Tiles, b: Tiles, ops: Seq<TileOp>)
    requires
        ops_relate(a, b, ops),
    ensures
        b.total() == a.total() + insert_count(ops) - (ops.len() - insert_count(ops)),
    decreases ops.len(),
{
    if ops.len() > 0 {
        let m = choose|m: Tiles| #[trigger] op_step(a, m, ops[0])
            && ops_relate(m, b, ops.drop_first());
        lemma_multiset_balance(m, b, ops.drop_first());
    }
}

/// A figure-multiset: one packed rank counter per suit.
#[derive(Debug)]
pub struct Figures(pub Vec<Ranks>);

impl Clone for Figures {
    fn clone(&self) -> (r: Self)
        ensures
            r.0@ == self.0@,
    {
        let r = Figures(self.0.clone());
        proof {
            assert(r.0@ =~= self.0@);
        }
        r
    }
}

impl Figures {
    pub open spec fn wf(self) -> bool {
        &&& self.0.len() == 4
        &&& forall|s: int| 0 <= s < 4 ==> (#[trigger] self.0[s]).wf()
        &&& self.0[3].count_of(7) == 0
        &&& self.0[3].count_of(8) == 0
    }

    /// How many copies of the figure with identifier `f` are counted.
    pub open spec fn count_of_figure(self, f: int) -> u32 {
        self.0[f / 9].count_of(f % 9)
    }

    pub fn new() -> (r: Self)
        ensures
            r.wf(),
            forall|f: int| 0 <= f < 34 ==> r.count_of_figure(f) == 0,
            r.total() == 0,
    {
        let mut v: Vec<Ranks> = Vec::new();
        v.push(Ranks::new());
        v.push(Ranks::new());
        v.push(Ranks::new());
        v.push(Ranks::new());
        Figures(v)
    }

    /// The number of figures counted, copies included.
    pub open spec fn total(self) -> int {
        self.0[0].total() + self.0[1].total() + self.0[2].total() + self.0[3].total()
    }

    pub fn is_empty(&self) -> (r: bool)
        requires
            self.wf(),
        ensures
            r == (self.total() == 0),
    {
        self.count() == 0
    }

    pub fn count(&self) -> (r: usize)
        requires
            self.wf(),
        ensures
            r == self.total(),
    {
        proof {
            self.0[0 as int].lemma_total_bounds();
            self.0[1 as int].lemma_total_bounds();
            self.0[2 as int].lemma_total_bounds();
            self.0[3 as int].lemma_total_bounds();
        }
        self.0[0].count() + self.0[1].count() + self.0[2].count() + self.0[3].count()
    }

    /// Removes and returns one copy of the lowest figure counted.
    #[verifier::rlimit(50)]
    pub fn next(&mut self) -> (r: Option<Figure>)
        requires
            old(self).wf(),
        ensures
            final(self).wf(),
            old(self).total() == 0 ==> r is None && *final(self) == *old(self),
            old(self).total() != 0 ==> r is Some && {
                let f = (r->0).0 as int;
                &&& (r->0).wf()
                &&& old(self).count_of_figure(f) != 0
                &&& forall|g: int| 0 <= g < f ==> old(self).count_of_figure(g) == 0
                &&& final(self).count_of_figure(f) == old(self).count_of_figure(f) - 1
                &&& forall|g: int| 0 <= g < 34 && g != f ==> final(self).count_of_figure(g)
                    == old(self).count_of_figure(g)
                &&& final(self).total() == old(self).total() - 1
            },
    {
        for s in 0..4usize
            invariant
                self.wf(),
                *self == *old(self),
                forall|u: int| 0 <= u < s ==> (#[trigger] self.0[u]).total() == 0,
        {
            let mut w = self.0[s];
            proof {
                w.lemma_total_bounds();
            }
            if w.0 != 0 {
                let got = w.next();
                let rank = got.unwrap();
                proof {
                    old(self).0[0 as int].lemma_total_bounds();
                    old(self).0[1 as int].lemma_total_bounds();
                    old(self).0[2 as int].lemma_total_bounds();
                    old(self).0[3 as int].lemma_total_bounds();
                    if s == 3 {
                        assert(rank.0 < 7);
                    }
                }
                let f = Figure::from_suitrank(Suit::from_id(s), rank);
                self.0.set(s, w);
                proof {
                    let ff = f.0 as int;
                    assert(ff == 9 * (s as int) + rank.0 as int);
                    assert(ff / 9 == s as int && ff % 9 == rank.0 as int) by (nonlinear_arith)
                        requires ff == 9 * (s as int) + rank.0 as int, 0 <= s < 4, 0 <= rank.0 < 9;
                    assert forall|g: int| 0 <= g < 34 && g != ff implies
                        final(self).count_of_figure(g) == old(self).count_of_figure(g) by {
                        assert(g == 9 * (g / 9) + g % 9);
                    }
                    assert forall|g: int| 0 <= g < ff implies
                        old(self).count_of_figure(g) == 0 by {
                        assert(g == 9 * (g / 9) + g % 9);
                    }
                }
                return Some(f);
            } else {
                proof {
                    self.0[s as int].lemma_zero();
                }
            }
        }
        None
    }

    /// The packed rank counters of one suit, tagged with that suit.
    pub fn suitranks(&self, suit: Suit) -> (r: SuitRanks)
        requires
            self.wf(),
            suit.wf(),
        ensures
            r.suit_spec() == suit.0 as int,
            r.ranks_spec() == self.0[suit.0 as int],
            r.wf(),
    {
        SuitRanks::from_suitranks(suit, self.0[suit.id()])
    }

    /// Counts one more copy of `figure`; at most four fit.
    pub fn add(&mut self, figure: Figure)
        requires
            old(self).wf(),
            figure.wf(),
            old(self).count_of_figure(figure.0 as int) < 4,
        ensures
            final(self).wf(),
            final(self).count_of_figure(figure.0 as int)
                == old(self).count_of_figure(figure.0 as int) + 1,
            forall|g: int| 0 <= g < 34 && g != figure.0 as int ==>
                final(self).count_of_figure(g) == old(self).count_of_figure(g),
            final(self).total() == old(self).total() + 1,
    {
        let s = figure.suit().id();
        let rank = figure.rank();
        let mut w = self.0[s];
        proof {
            assert(figure.0 as int == 9 * (figure.0 as int / 9) + figure.0 as int % 9);
        }
        w.add(rank);
        self.0.set(s, w);
        proof {
            assert forall|g: int| 0 <= g < 34 && g != figure.0 as int implies
                final(self).count_of_figure(g) == old(self).count_of_figure(g) by {
                assert(g == 9 * (g / 9) + g % 9);
            }
        }
    }

    /// Whether a run starts at `rep`.  Honor figures never form runs.
    pub fn has_chow(&self, rep: Figure) -> (r: bool)
        requires
            self.wf(),
            rep.wf(),
        ensures
            r == (rep.0 < 27 && self.0[rep.0 as int / 9].chow_at(rep.0 as int % 9)),
    {
        let suit = rep.suit();
        suit.is_numeric() && self.0[suit.id()].filter_chow().has(rep.rank())
    }

    /// Whether `rep` is held as a triplet or more.
    pub fn has_pung(&self, rep: Figure) -> (r: bool)
        requires
            self.wf(),
            rep.wf(),
        ensures
            r == (self.count_of_figure(rep.0 as int) >= 3),
    {
        self.0[rep.suit().id()].filter_pung().has(rep.rank())
    }

    /// Whether all four copies of `rep` are held.
    pub fn has_kong(&self, rep: Figure) -> (r: bool)
        requires
            self.wf(),
            rep.wf(),
        ensures
            r == (self.count_of_figure(rep.0 as int) >= 4),
    {
        self.0[rep.suit().id()].filter_kong().has(rep.rank())
    }

    /// Whether `rep` is held as a pair or more.
    pub fn has_pair(&self, rep: Figure) -> (r: bool)
        requires
            self.wf(),
            rep.wf(),
        ensures
            r == (self.count_of_figure(rep.0 as int) >= 2),
    {
        self.0[rep.suit().id()].filter_pair().has(rep.rank())
    }

    /// Whether at least one copy of `rep` is held.
    pub fn has_one(&self, rep: Figure) -> (r: bool)
        requires
            self.wf(),
            rep.wf(),
        ensures
            r == (self.count_of_figure(rep.0 as int) >= 1),
    {
        self.0[rep.suit().id()].filter_one().has(rep.rank())
    }
}

/// A suit-multiset: how many figures of each suit a hand fragment holds.
#[derive(Debug)]
pub struct Suits(pub Vec<u8>);

impl Clone for Suits {
    fn clone(&self) -> (r: Self)
        ensures
            r.0@ == self.0@,
    {
        let r = Suits(self.0.clone());
        proof {
            assert(r.0@ =~= self.0@);
        }
        r
    }
}

impl Suits {
    pub open spec fn wf(self) -> bool {
        self.0.len() == 4
    }

    pub open spec fn total(self) -> int {
        self.0[0] + self.0[1] + self.0[2] + self.0[3]
    }

    pub fn new() -> (r: Self)
        ensures
            r.wf(),
            r.total() == 0,
            forall|s: int| 0 <= s < 4 ==> r.0[s] == 0,
    {
        let mut v: Vec<u8> = Vec::new();
        v.push(0);
        v.push(0);
        v.push(0);
        v.push(0);
        Suits(v)
    }

    pub fn is_empty(&self) -> (r: bool)
        requires
            self.wf(),
        ensures
            r == (self.total() == 0),
    {
        self.count() == 0
    }

    pub fn count(&self) -> (r: usize)
        requires
            self.wf(),
        ensures
            r == self.total(),
    {
        self.0[0] as usize + self.0[1] as usize + self.0[2] as usize + self.0[3] as usize
    }

    /// Takes one count from the lowest non-empty suit.
    pub fn next(&mut self) -> (r: Option<Suit>)
        requires
            old(self).wf(),
        ensures
            final(self).wf(),
            old(self).total() == 0 ==> r is None && *final(self) == *old(self),
            old(self).total() != 0 ==> r is Some && {
                let s = (r->0).0 as int;
                &&& (r->0).wf()
                &&& old(self).0[s] != 0
                &&& forall|u: int| 0 <= u < s ==> old(self).0[u] == 0
                &&& final(self).0[s] == old(self).0[s] - 1
                &&& forall|u: int| 0 <= u < 4 && u != s ==> final(self).0[u] == old(self).0[u]
            },
    {
        for s in 0..4usize
            invariant
                self.wf(),
                *self == *old(self),
                forall|u: int| 0 <= u < s ==> old(self).0[u] == 0,
        {
            let c = self.0[s];
            if c != 0 {
                self.0.set(s, c - 1);
                return Some(Suit::from_id(s));
            }
        }
        None
    }
}

/// How many entries of `s` carry rank `k`.
pub open spec fn rank_count(s: Seq<Figure>, k: int) -> int
    decreases s.len(),
{
    if s.len() == 0 {
        0
    } else {
        rank_count(s.drop_last(), k) + if s.last().0 as int % 9 == k { 1int } else { 0int }
    }
}

/// One suit's packed rank counters together with a suit tag: the shape of a
/// candidate group handed to the shape tests.
#[derive(Copy, Clone, Debug, PartialEq, Eq, Structural)]
pub struct SuitRanks(pub u32);

impl SuitRanks {
    /// The suit tag in the top bits.
    pub open spec fn suit_spec(self) -> int {
        (self.0 >> 27) as int
    }

    /// The packed rank counters in the low 27 bits.
    pub open spec fn ranks_spec(self) -> Ranks {
        Ranks(self.0 & 0o777777777)
    }

    pub open spec fn wf(self) -> bool {
        &&& self.suit_spec() < 4
        &&& self.ranks_spec().wf()
        &&& self.suit_spec() == 3 ==> self.ranks_spec().count_of(7) == 0
            && self.ranks_spec().count_of(8) == 0
    }

    pub fn raw(self) -> (r: usize)
        ensures
            r == self.0 as int,
    {
        self.0 as usize
    }

    /// Keeps the suit tag and the nine counters, unchecked.
    pub fn from_raw(raw: usize) -> (r: Self)
        ensures
            r.0 == (raw as u32) & 0o3777777777,
    {
        proof {
            assert(((raw & 0o3777777777) as u32) == (raw as u32) & 0o3777777777) by (bit_vector);
        }
        SuitRanks(#[verifier::truncate] ((raw & 0o3777777777) as u32))
    }

    pub fn from_suitranks(suit: Suit, ranks: Ranks) -> (r: Self)
        requires
            suit.wf(),
            ranks.fits(),
        ensures
            r.suit_spec() == suit.0 as int,
            r.ranks_spec() == ranks,
            ranks.wf() && (suit.0 == 3 ==> ranks.count_of(7) == 0 && ranks.count_of(8) == 0)
                ==> r.wf(),
    {
        let r = SuitRanks::from_raw(((suit.id() as u32) << 27 | ranks.0) as usize);
        proof {
            let s = suit.0;
            let x = ranks.0;
            let y = r.0;
            assert(y >> 27 == s as u32 && y & 0o777777777 == x) by (bit_vector)
                requires
                    s < 4,
                    x >> 27 == 0,
                    y == ((((s as u32) << 27 | x) as usize) as u32) & 0o3777777777;
            assert forall|t: u32| t < 27 && t % 3 == 0 && ranks.wf() implies
                #[trigger] fld(r.ranks_spec().0, t) <= 4 by {
                assert(fld(x, t) <= 4);
            }
        }
        r
    }

    pub fn into_suitranks(self) -> (r: (Suit, Ranks))
        requires
            self.wf(),
        ensures
            r.0.0 == self.suit_spec(),
            r.1 == self.ranks_spec(),
    {
        (self.suit(), self.ranks())
    }

    pub fn ranks(self) -> (r: Ranks)
        ensures
            r == self.ranks_spec(),
    {
        let r = Ranks::from_raw(self.raw());
        proof {
            let x = self.0;
            assert((x as usize as u32) & 0o777777777 == x & 0o777777777) by (bit_vector);
        }
        r
    }

    pub fn suit(self) -> (r: Suit)
        requires
            self.wf(),
        ensures
            r.0 == self.suit_spec(),
            r.wf(),
    {
        proof {
            let x = self.0;
            assert(x as usize >> 27 == (x >> 27) as usize) by (bit_vector);
        }
        Suit::from_id(self.raw() >> 27)
    }

    pub fn tile_count(&self) -> (r: usize)
        requires
            self.wf(),
        ensures
            r == self.ranks_spec().total(),
    {
        self.ranks().count()
    }

    /// Whether these tiles are exactly one full run.
    pub fn is_chow(&self) -> (r: bool)
        requires
            self.wf(),
        ensures
            r == (self.suit_spec() < 3 && self.ranks_spec().total() == 3
                && exists|k: int| 0 <= k < 9 && self.ranks_spec().chow_at(k)),
    {
        let rk = self.ranks();
        let su = self.suit();
        su.is_numeric() && rk.count() == 3 && !rk.filter_chow().is_empty()
    }

    /// Whether these tiles are exactly one triplet.
    pub fn is_pong(&self) -> (r: bool)
        requires
            self.wf(),
        ensures
            r == (self.ranks_spec().total() == 3
                && exists|k: int| 0 <= k < 9 && self.ranks_spec().count_of(k) >= 3),
    {
        let rk = self.ranks();
        rk.count() == 3 && !rk.filter_pung().is_empty()
    }

    /// Whether these tiles are exactly one quad.
    pub fn is_kong(&self) -> (r: bool)
        requires
            self.wf(),
        ensures
            r == (self.ranks_spec().total() == 4
                && exists|k: int| 0 <= k < 9 && self.ranks_spec().count_of(k) >= 4),
    {
        let rk = self.ranks();
        rk.count() == 4 && !rk.filter_kong().is_empty()
    }

    /// Whether these tiles are a gapped partial run.
    pub fn is_kanchan(&self) -> (r: bool)
        requires
            self.wf(),
        ensures
            r == (self.ranks_spec().total() == 2
                && exists|k: int| 0 <= k < 9 && self.ranks_spec().kanchan_at(k)),
    {
        let rk = self.ranks();
        rk.count() == 2 && !rk.filter_kanchan().is_empty()
    }

    /// Whether these tiles are an adjacent partial run.
    pub fn is_penryan(&self) -> (r: bool)
        requires
            self.wf(),
        ensures
            r == (self.ranks_spec().total() == 2
                && exists|k: int| 0 <= k < 9 && self.ranks_spec().penryan_at(k)),
    {
        let rk = self.ranks();
        rk.count() == 2 && !rk.filter_penryan().is_empty()
    }

    /// Whether these tiles are an edge partial run.
    pub fn is_penchan(&self) -> (r: bool)
        requires
            self.wf(),
        ensures
            r == (self.ranks_spec().total() == 2
                && exists|k: int| (k == 0 || k == 7) && self.ranks_spec().penryan_at(k)),
    {
        let rk = self.ranks();
        rk.count() == 2 && !rk.filter_penchan().is_empty()
    }

    /// Whether these tiles are an open two-sided partial run.
    pub fn is_ryanmen(&self) -> (r: bool)
        requires
            self.wf(),
        ensures
            r == (self.ranks_spec().total() == 2
                && exists|k: int| 1 <= k <= 6 && self.ranks_spec().penryan_at(k)),
    {
        let rk = self.ranks();
        rk.count() == 2 && !rk.filter_ryanmen().is_empty()
    }

    /// Whether these tiles are exactly one pair.
    pub fn is_pair(&self) -> (r: bool)
        requires
            self.wf(),
        ensures
            r == (self.ranks_spec().total() == 2
                && exists|k: int| 0 <= k < 9 && self.ranks_spec().count_of(k) >= 2),
    {
        let rk = self.ranks();
        rk.count() == 2 && !rk.filter_pair().is_empty()
    }

    /// Spells the tiles out as figures, lowest rank first, copies repeated.
    pub fn to_figures(&self) -> (r: Vec<Figure>)
        requires
            self.wf(),
        ensures
            r@.len() == self.ranks_spec().total(),
            forall|i: int| 0 <= i < r@.len() ==> (#[trigger] r@[i]).wf()
                && r@[i].0 as int / 9 == self.suit_spec(),
            forall|k: int| 0 <= k < 9 ==> rank_count(r@, k) == self.ranks_spec().count_of(k),
    {
        let mut v: Vec<Figure> = Vec::new();
        let mut ranks = self.ranks();
        let suit = self.suit();
        proof {
            ranks.lemma_total_bounds();
        }
        loop
            invariant
                ranks.fits(),
                suit.0 == self.suit_spec(),
                suit.wf(),
                0 <= ranks.total() <= 63,
                v@.len() + ranks.total() == self.ranks_spec().total(),
                forall|i: int| 0 <= i < v@.len() ==> (#[trigger] v@[i]).wf()
                    && v@[i].0 as int / 9 == self.suit_spec(),
                forall|k: int| 0 <= k < 9 ==> rank_count(v@, k) + ranks.count_of(k)
                    == self.ranks_spec().count_of(k),
                suit.0 == 3 ==> ranks.count_of(7) == 0 && ranks.count_of(8) == 0,
            ensures
                v@.len() == self.ranks_spec().total(),
                forall|i: int| 0 <= i < v@.len() ==> (#[trigger] v@[i]).wf()
                    && v@[i].0 as int / 9 == self.suit_spec(),
                forall|k: int| 0 <= k < 9 ==> rank_count(v@, k)
                    == self.ranks_spec().count_of(k),
            decreases ranks.total(),
        {
            proof {
                ranks.lemma_total_bounds();
            }
            let got = ranks.next();
            if let Some(rank) = got {
                proof {
                    if suit.0 == 3 {
                        assert(rank.0 < 7);
                    }
                }
                let f = Figure::from_suitrank(suit, rank);
                proof {
                    let ff = f.0 as int;
                    assert(ff == 9 * (suit.0 as int) + rank.0 as int);
                    assert(ff / 9 == suit.0 as int && ff % 9 == rank.0 as int)
                        by (nonlinear_arith)
                        requires
                            ff == 9 * (suit.0 as int) + rank.0 as int,
                            0 <= suit.0 < 4,
                            0 <= rank.0 < 9;
                    assert((v@.push(f)).drop_last() =~= v@);
                    assert(forall|k: int| 0 <= k < 9 ==> rank_count(v@.push(f), k)
                        == rank_count(v@, k) + if ff % 9 == k { 1int } else { 0int });
                }
                v.push(f);
            } else {
                proof {
                    ranks.lemma_zero();
                }
                break;
            }
        }
        v
    }
}

/// A one-suit tile fragment: a suit tag above a packed set of positions.
pub struct SuitTiles(pub u64);

impl SuitTiles {
    /// The suit tag stored above the 36 position bits.
    pub open spec fn suit_spec(self) -> int {
        ((self.0 >> 36) & 3) as int
    }

    pub fn raw(self) -> (r: u64)
        ensures
            r == self.0,
    {
        self.0
    }

    /// Keeps the suit tag and the 36 position bits.
    pub fn from_raw(raw: u64) -> (r: Self)
        ensures
            r.0 == raw & 0x3fffffffff,
    {
        SuitTiles(raw & 0x3fffffffff)
    }

    pub fn new() -> (r: Self)
        ensures
            r.0 == 0,
    {
        SuitTiles(0)
    }

    pub fn is_empty(&self) -> (r: bool)
        ensures
            r == (self.0 == 0),
    {
        self.0 == 0
    }

    pub fn suit(&self) -> (r: Suit)
        ensures
            r.0 == self.suit_spec(),
            r.wf(),
    {
        proof {
            let x = self.0;
            assert((((x >> 36) & 0x3) as usize) % 4 == (((x >> 36) & 0x3) as usize)
                && (((x >> 36) & 0x3) as usize) == (x >> 36) & 0x3) by (bit_vector);
        }
        Suit::from_id(((self.0 >> 36) & 0x3) as usize)
    }

    /// A fragment holding one position: the first copy of the tile's rank,
    /// tagged with the tile's suit.
    pub fn singleton(tile: Tile) -> (r: Self)
        requires
            tile.wf(),
        ensures
            r.suit_spec() == tile.0 as int / 36,
            forall|i: int| 0 <= i < 36 ==> (#[trigger] RankSpecs((r.0 & 0xfffffffff) as u64)
                .has_id(i) <==> i == 4 * (tile.0 as int / 4 % 9)),
    {
        let s = tile.suit().id() as u64;
        let rk = tile.rank().id() as u64;
        let a = (s << 36u64) | (1u64 << (4 * rk));
        let r = SuitTiles::from_raw(a);
        proof {
            Tiles::lemma_tile_split(tile.0 as int);
            let su = s as u64;
            let k = rk as u64;
            let y = r.0;
            assert(((y >> 36) & 3) == su && (forall|i: u64| i < 36 ==>
                (#[trigger] (((y & 0xfffffffff) as u64) >> i) & 1 == 1) == (i == 4 * k)))
                by (bit_vector)
                requires
                    su < 4,
                    k < 9,
                    y == ((su << 36u64) | (1u64 << (4 * k))) & 0x3fffffffff;
            assert forall|i: int| 0 <= i < 36 implies
                (#[trigger] RankSpecs((r.0 & 0xfffffffff) as u64).has_id(i) <==> i == 4 * (tile.0
                as int / 4 % 9)) by {
                assert(((((y & 0xfffffffff) as u64) >> (i as u64)) & 1 == 1) == (i as u64
                    == 4 * k));
            }
        }
        r
    }
}

} // verus!
