//! The shared playing surface: seating winds, the discard piles, the
//! exposed melds, and the circular wall with its dead-wall reserve.

use vstd::prelude::*;

use crate::meld::Meld;
use crate::tile::{Tile, Tiles};

verus! {

/// A seat, named after its wind: East, South, West, North in turn order.
#[derive(Copy, Clone, Debug, PartialEq, Eq, Structural)]
pub struct Wind(pub u8);

/// The glyph a wind is shown as.
pub open spec fn wind_glyph(i: int) -> char {
    if i == 0 { '\u{6771}' }
    else if i == 1 { '\u{5357}' }
    else if i == 2 { '\u{897F}' }
    else { '\u{5317}' }
}

impl Wind {
    /// Number of seats.
    pub const N: usize = 4;

    pub open spec fn wf(self) -> bool {
        self.0 < 4
    }

    /// The dealer's seat.
    pub fn east() -> (r: Self)
        ensures
            r.0 == 0,
    {
        Wind(0)
    }

    pub fn south() -> (r: Self)
        ensures
            r.0 == 1,
    {
        Wind(1)
    }

    pub fn west() -> (r: Self)
        ensures
            r.0 == 2,
    {
        Wind(2)
    }

    pub fn north() -> (r: Self)
        ensures
            r.0 == 3,
    {
        Wind(3)
    }

    pub fn id(self) -> (r: usize)
        ensures
            r == self.0 as int,
    {
        self.0 as usize
    }

    /// Total constructor: the index is reduced modulo the domain size.
    pub fn from_id(id: usize) -> (r: Self)
        ensures
            r.0 == id as int % 4,
            r.wf(),
    {
        Wind((id % 4) as u8)
    }

    /// All four winds in turn order.
    pub fn make_iter() -> (r: Vec<Self>)
        ensures
            r@.len() == 4,
            forall|i: int| 0 <= i < 4 ==> (#[trigger] r@[i]).0 == i,
    {
        let mut v: Vec<Wind> = Vec::new();
        for i in 0..Self::N
            invariant
                v@.len() == i,
                forall|j: int| 0 <= j < i ==> (#[trigger] v@[j]).0 == j,
        {
            v.push(Wind::from_id(i));
        }
        v
    }

    /// The three other seats, nearest first going clockwise from this one.
    pub fn others(self) -> (r: Vec<Self>)
        requires
            self.wf(),
        ensures
            r@.len() == 3,
            forall|i: int| 0 <= i < 3 ==> (#[trigger] r@[i]).0 == (self.0 + i + 1) % 4
                && r@[i].wf(),
    {
        let id = self.id();
        let mut v: Vec<Wind> = Vec::new();
        v.push(Wind::from_id(id + 1));
        v.push(Wind::from_id(id + 2));
        v.push(Wind::from_id(id + 3));
        v
    }

    /// The seat `offset` places clockwise from this one.
    pub fn nth(self, offset: usize) -> (r: Self)
        requires
            self.0 as int + offset <= usize::MAX,
        ensures
            r.0 == (self.0 + offset) % 4,
            r.wf(),
    {
        Self::from_id(self.id() + offset)
    }

    /// The next seat clockwise.
    pub fn rightside(self) -> (r: Self)
        requires
            self.wf(),
        ensures
            r.0 == (self.0 + 1) % 4,
            r.wf(),
    {
        self.nth(1)
    }

    /// The seat across the table.
    pub fn frontside(self) -> (r: Self)
        requires
            self.wf(),
        ensures
            r.0 == (self.0 + 2) % 4,
            r.wf(),
    {
        self.nth(2)
    }

    /// The previous seat, one place counterclockwise.
    pub fn leftside(self) -> (r: Self)
        requires
            self.wf(),
        ensures
            r.0 == (self.0 + 3) % 4,
            r.wf(),
    {
        self.nth(3)
    }

    /// The seat's display glyph.
    pub fn show(self) -> (r: &'static str)
        requires
            self.wf(),
        ensures
            r@ == seq![wind_glyph(self.0 as int)],
    {
        let s: &'static str = match self.0 {
            0 => "\u{6771}",
            1 => "\u{5357}",
            2 => "\u{897F}",
            _ => "\u{5317}",
        };
        proof {
            reveal_strlit("\u{6771}");
            reveal_strlit("\u{5357}");
            reveal_strlit("\u{897F}");
            reveal_strlit("\u{5317}");
            assert(s@ =~= seq![wind_glyph(self.0 as int)]);
        }
        s
    }
}

/// One discard-pile entry: the tile, who discarded it, a ready-declaration
/// flag, and a rob mark naming who claimed it.
#[derive(Copy, Clone, Debug, PartialEq, Eq, Structural)]
pub struct DiscardedTile(pub u16);

impl DiscardedTile {
    /// Who discarded the tile (bits 0-1).
    pub open spec fn discarder_spec(self) -> int {
        (self.0 & 3) as int
    }

    /// Whether the discard declared ready (bit 2).
    pub open spec fn riichi_spec(self) -> bool {
        (self.0 >> 2) & 1 == 1
    }

    /// Who robbed the tile (bits 3-4), meaningful only when marked robbed.
    pub open spec fn robbedby_spec(self) -> int {
        ((self.0 >> 3) & 3) as int
    }

    /// Whether the tile was robbed (bit 5).
    pub open spec fn robbed_spec(self) -> bool {
        (self.0 >> 5) & 1 == 1
    }

    /// The discarded tile's identifier (bits 8-15).
    pub open spec fn tile_spec(self) -> int {
        (self.0 >> 8) as int
    }

    /// A sound entry: a real tile, and rob bits only under a rob mark.
    pub open spec fn wf(self) -> bool {
        &&& self.tile_spec() < 136
        &&& !self.robbed_spec() ==> self.robbedby_spec() == 0
    }

    pub fn raw(self) -> (r: usize)
        ensures
            r == self.0 as int,
    {
        self.0 as usize
    }

    pub fn from_raw(raw: usize) -> (r: Self)
        ensures
            r.0 == raw as u16,
    {
        DiscardedTile(#[verifier::truncate] (raw as u16))
    }

    /// How the packed fields read back out through word-sized arithmetic.
    proof fn lemma_read_bits(x: u16)
        ensures
            (x as usize & 3) % 4 == (x & 3) as usize,
            (x & 3) < 4,
            (x as usize & 4 != 0) == ((x >> 2) & 1 == 1),
            (x as usize & 0o40 != 0) == ((x >> 5) & 1 == 1),
            ((x as usize >> 3) & 3) % 4 == ((x >> 3) & 3) as usize,
            ((x >> 3) & 3) < 4,
            x as usize >> 8 == ((x >> 8) as usize),
    {
        assert((x as usize & 3) % 4 == (x & 3) as usize && (x & 3) < 4
            && ((x as usize & 4 != 0) == ((x >> 2) & 1 == 1))
            && ((x as usize & 0o40 != 0) == ((x >> 5) & 1 == 1))
            && ((x as usize >> 3) & 3) % 4 == ((x >> 3) & 3) as usize
            && ((x >> 3) & 3) < 4
            && x as usize >> 8 == ((x >> 8) as usize)) by (bit_vector);
    }

    /// A fresh entry: the tile and its discarder, no flags set.
    pub fn from_tile_wind(tile: Tile, wind: Wind) -> (r: Self)
        requires
            tile.wf(),
            wind.wf(),
        ensures
            r.discarder_spec() == wind.0,
            r.tile_spec() == tile.0,
            !r.riichi_spec(),
            !r.robbed_spec(),
            r.wf(),
    {
        let r = Self::from_raw((tile.id() << 8) | wind.id());
        proof {
            let t = tile.0;
            let w = wind.0;
            let y = r.0;
            assert(y & 3 == w as u16 && (y >> 2) & 1 == 0 && (y >> 5) & 1 == 0
                && (y >> 3) & 3 == 0 && y >> 8 == t as u16) by (bit_vector)
                requires
                    t < 136,
                    w < 4,
                    y == ((((t as usize) << 8) | w as usize) as u16);
        }
        r
    }

    pub fn discarded_by(self) -> (r: Wind)
        ensures
            r.0 == self.discarder_spec(),
            r.wf(),
    {
        proof {
            Self::lemma_read_bits(self.0);
        }
        Wind::from_id(self.raw() & 0o3)
    }

    /// The same entry with the ready-declaration flag set.
    pub fn add_riichi_flag(self) -> (r: Self)
        ensures
            r.riichi_spec(),
            r.discarder_spec() == self.discarder_spec(),
            r.tile_spec() == self.tile_spec(),
            r.robbed_spec() == self.robbed_spec(),
            r.robbedby_spec() == self.robbedby_spec(),
            self.wf() ==> r.wf(),
    {
        let r = Self::from_raw(self.raw() | 0o4);
        proof {
            let x = self.0;
            let y = r.0;
            assert((y >> 2) & 1 == 1 && y & 3 == x & 3 && y >> 8 == x >> 8
                && (y >> 5) & 1 == (x >> 5) & 1 && (y >> 3) & 3 == (x >> 3) & 3)
                by (bit_vector)
                requires y == ((x as usize | 4) as u16);
        }
        r
    }

    pub fn is_riichi_declaration(self) -> (r: bool)
        ensures
            r == self.riichi_spec(),
    {
        proof {
            Self::lemma_read_bits(self.0);
        }
        (self.raw() & 0o4) != 0
    }

    /// The same entry marked robbed by `robbed_by`.  A tile is robbed once:
    /// the mark is set on an entry whose rob bits are still clear, which
    /// every well-formed entry without the mark guarantees.
    pub fn add_robbed_mark(self, robbed_by: Wind) -> (r: Self)
        requires
            robbed_by.wf(),
            !self.robbed_spec(),
            self.robbedby_spec() == 0,
        ensures
            r.robbed_spec(),
            r.robbedby_spec() == robbed_by.0,
            r.discarder_spec() == self.discarder_spec(),
            r.tile_spec() == self.tile_spec(),
            r.riichi_spec() == self.riichi_spec(),
    {
        let r = Self::from_raw(self.raw() | (robbed_by.id() << 3) | 0o40);
        proof {
            let x = self.0;
            let w = robbed_by.0;
            let y = r.0;
            assert((y >> 5) & 1 == 1 && (y >> 3) & 3 == w as u16 && y & 3 == x & 3
                && y >> 8 == x >> 8 && (y >> 2) & 1 == (x >> 2) & 1) by (bit_vector)
                requires
                    w < 4,
                    (x >> 5) & 1 != 1,
                    (x >> 3) & 3 == 0,
                    y == ((x as usize | ((w as usize) << 3) | 0o40) as u16);
        }
        r
    }

    pub fn is_robbed(self) -> (r: bool)
        ensures
            r == self.robbed_spec(),
    {
        proof {
            Self::lemma_read_bits(self.0);
        }
        (self.raw() & 0o40) != 0
    }

    /// Who robbed the tile, if anyone did.
    pub fn robbed_by(self) -> (r: Option<Wind>)
        ensures
            r == if self.robbed_spec() {
                Some(Wind(self.robbedby_spec() as u8))
            } else {
                Option::<Wind>::None
            },
            r is Some ==> (r->0).wf(),
    {
        if self.is_robbed() {
            proof {
                Self::lemma_read_bits(self.0);
            }
            Some(Wind::from_id((self.raw() >> 3) & 0o3))
        } else {
            None
        }
    }

    pub fn tile(self) -> (r: Tile)
        ensures
            r.0 == self.tile_spec() % 136,
            r.wf(),
            self.tile_spec() < 136 ==> r.0 == self.tile_spec(),
    {
        proof {
            Self::lemma_read_bits(self.0);
        }
        Tile::from_id(self.raw() >> 8)
    }
}

/// The shared discard history of one hand, in discard order.  Indices into
/// it are the stable references melds record.
#[derive(Debug)]
pub struct Rivers {
    pub tiles: Vec<DiscardedTile>,
}

impl Rivers {
    pub open spec fn wf(self) -> bool {
        forall|i: int| 0 <= i < self.tiles@.len() ==> (#[trigger] self.tiles@[i]).wf()
    }

    pub fn new() -> (r: Self)
        ensures
            r.tiles@.len() == 0,
            r.wf(),
    {
        Rivers { tiles: Vec::new() }
    }

    /// All entries so far, oldest first.
    pub fn iter(&self) -> (r: &Vec<DiscardedTile>)
        ensures
            r@ == self.tiles@,
    {
        &self.tiles
    }

    pub fn len(&self) -> (r: usize)
        ensures
            r == self.tiles@.len(),
    {
        self.tiles.len()
    }

    /// Appends a discard by `wind`.
    pub fn add(&mut self, wind: Wind, tile: Tile)
        requires
            old(self).wf(),
            wind.wf(),
            tile.wf(),
        ensures
            final(self).wf(),
            final(self).tiles@.len() == old(self).tiles@.len() + 1,
            forall|i: int| 0 <= i < old(self).tiles@.len() ==> final(self).tiles@[i]
                == old(self).tiles@[i],
            final(self).tiles@.last().discarder_spec() == wind.0,
            final(self).tiles@.last().tile_spec() == tile.0,
            !final(self).tiles@.last().robbed_spec(),
            !final(self).tiles@.last().riichi_spec(),
    {
        self.tiles.push(DiscardedTile::from_tile_wind(tile, wind));
    }

    /// Forgets the whole history, at the start of a new hand.
    pub fn clear(&mut self)
        ensures
            final(self).tiles@.len() == 0,
            final(self).wf(),
    {
        self.tiles.clear();
    }

    /// The most recent entry, if any.
    pub fn top(&self) -> (r: Option<DiscardedTile>)
        ensures
            r == if self.tiles@.len() == 0 {
                Option::<DiscardedTile>::None
            } else {
                Some(self.tiles@.last())
            },
    {
        let n = self.tiles.len();
        if n != 0 {
            Some(self.tiles[n - 1])
        } else {
            None
        }
    }

    /// The entry at index `i`, if the pile reaches that far.
    pub fn get(&self, i: usize) -> (r: Option<DiscardedTile>)
        ensures
            r == if i < self.tiles@.len() {
                Some(self.tiles@[i as int])
            } else {
                Option::<DiscardedTile>::None
            },
    {
        if i < self.tiles.len() {
            Some(self.tiles[i])
        } else {
            None
        }
    }

    /// Marks the newest entry robbed by `robber` and hands back the robbed
    /// tile with the entry's index.
    pub fn rob(&mut self, robber: Wind) -> (r: Option<(Tile, usize)>)
        requires
            old(self).wf(),
            robber.wf(),
            old(self).tiles@.len() > 0 ==> !old(self).tiles@.last().robbed_spec(),
        ensures
            final(self).wf(),
            old(self).tiles@.len() == 0 ==> r is None && *final(self) == *old(self),
            old(self).tiles@.len() > 0 ==> r is Some && {
                let (t, i) = r->0;
                &&& i == old(self).tiles@.len() - 1
                &&& t.0 == old(self).tiles@.last().tile_spec()
                &&& t.wf()
                &&& final(self).tiles@.len() == old(self).tiles@.len()
                &&& forall|j: int| 0 <= j < i ==> final(self).tiles@[j] == old(self).tiles@[j]
                &&& final(self).tiles@.last().robbed_spec()
                &&& final(self).tiles@.last().robbedby_spec() == robber.0
                &&& final(self).tiles@.last().tile_spec() == old(self).tiles@.last().tile_spec()
                &&& final(self).tiles@.last().discarder_spec()
                    == old(self).tiles@.last().discarder_spec()
            },
    {
        let n = self.tiles.len();
        if n == 0 {
            return None;
        }
        let d = self.tiles[n - 1];
        let marked = d.add_robbed_mark(robber);
        self.tiles.set(n - 1, marked);
        Some((marked.tile(), n - 1))
    }
}

/// The exposed melds on the table, in the order they were declared.
#[derive(Debug)]
pub struct Melds {
    pub melds: Vec<Meld>,
}

impl Melds {
    pub fn new() -> (r: Self)
        ensures
            r.melds@.len() == 0,
    {
        Melds { melds: Vec::new() }
    }

    pub fn clear(&mut self)
        ensures
            final(self).melds@.len() == 0,
    {
        self.melds.clear();
    }

    /// All melds so far, oldest first.
    pub fn iter(&self) -> (r: &Vec<Meld>)
        ensures
            r@ == self.melds@,
    {
        &self.melds
    }

    pub fn len(&self) -> (r: usize)
        ensures
            r == self.melds@.len(),
    {
        self.melds.len()
    }

    pub fn add(&mut self, meld: Meld)
        ensures
            final(self).melds@ == old(self).melds@.push(meld),
    {
        self.melds.push(meld);
    }

    /// The newest meld.
    pub fn top(&self) -> (r: Meld)
        requires
            self.melds@.len() > 0,
        ensures
            r == self.melds@.last(),
    {
        self.melds[self.melds.len() - 1]
    }

    pub fn get(&self, i: usize) -> (r: Meld)
        requires
            i < self.melds@.len(),
        ensures
            r == self.melds@[i as int],
    {
        self.melds[i]
    }

    /// Replaces the meld at `i`: the single upgrade path uses this.
    pub fn update(&mut self, i: usize, meld: Meld)
        requires
            i < old(self).melds@.len(),
        ensures
            final(self).melds@ == old(self).melds@.update(i as int, meld),
    {
        self.melds.set(i, meld);
    }
}

/// The four concealed hands and the exposed melds.
#[derive(Debug)]
pub struct Lands {
    pub tiles: Vec<Tiles>,
    pub melds: Melds,
}

impl Lands {
    pub open spec fn wf(self) -> bool {
        &&& self.tiles@.len() == 4
        &&& forall|s: int| 0 <= s < 4 ==> (#[trigger] self.tiles@[s]).wf()
    }

    pub fn new() -> (r: Self)
        ensures
            r.wf(),
            forall|s: int| 0 <= s < 4 ==> (#[trigger] r.tiles@[s]).total() == 0,
            forall|s: int, j: int| 0 <= s < 4 ==> !(#[trigger] r.tiles@[s].has_tile(j)),
            r.melds.melds@.len() == 0,
    {
        let mut v: Vec<Tiles> = Vec::new();
        v.push(Tiles::new());
        v.push(Tiles::new());
        v.push(Tiles::new());
        v.push(Tiles::new());
        Lands { tiles: v, melds: Melds::new() }
    }

    /// Empties every hand and the meld list, at the start of a new hand.
    pub fn clear(&mut self)
        ensures
            final(self).wf(),
            forall|s: int| 0 <= s < 4 ==> (#[trigger] final(self).tiles@[s]).total() == 0,
            forall|s: int, j: int| 0 <= s < 4 ==> !(#[trigger] final(self).tiles@[s].has_tile(j)),
            final(self).melds.melds@.len() == 0,
    {
        let mut v: Vec<Tiles> = Vec::new();
        v.push(Tiles::new());
        v.push(Tiles::new());
        v.push(Tiles::new());
        v.push(Tiles::new());
        self.tiles = v;
        self.melds.clear();
    }
}

/// The shuffled draw pile: a circular sequence over all 136 tiles with a
/// live cursor at each end and a fixed fourteen-tile dead-wall reserve.
#[derive(Debug)]
pub struct Wall {
    pub tiles: Vec<Tile>,
    pub index: usize,
    pub ridge: usize,
}

impl Wall {
    /// Tiles between the cursors that are never drawn.
    pub const N_DEAD_WALL: usize = 14;

    pub open spec fn wf(self) -> bool {
        &&& self.tiles@.len() == 136
        &&& self.index < 136
        &&& self.ridge < 136
        &&& forall|i: int| 0 <= i < 136 ==> (#[trigger] self.tiles@[i]).wf()
    }

    /// No tile appears twice: the wall is a permutation of the universe.
    pub open spec fn distinct(self) -> bool {
        forall|i: int, j: int| 0 <= i < j < 136 ==> (#[trigger] self.tiles@[i]).0
            != (#[trigger] self.tiles@[j]).0
    }

    /// How many tiles remain between the cursors, the dead wall included.
    pub open spec fn len_spec(self) -> int {
        if self.index == self.ridge {
            136
        } else if self.index >= self.ridge {
            self.index - self.ridge
        } else {
            136 + self.index - self.ridge
        }
    }

    /// The remaining stretch as a sequence: `ridge` first, the live draw
    /// end last.
    pub open spec fn live_seq(self) -> Seq<Tile> {
        Seq::new(self.len_spec() as nat, |k: int| self.tiles@[(self.ridge + k) % 136])
    }

    pub fn new() -> (r: Self)
        ensures
            r.wf(),
            r.distinct(),
            r.index == 0,
            r.ridge == 0,
            r.len_spec() == 136,
            forall|i: int| 0 <= i < 136 ==> (#[trigger] r.tiles@[i]).0 == i,
    {
        let mut tiles: Vec<Tile> = Vec::new();
        for i in 0..136usize
            invariant
                tiles@.len() == i,
                forall|j: int| 0 <= j < i ==> (#[trigger] tiles@[j]).0 == j,
        {
            tiles.push(Tile::from_id(i));
        }
        Wall { tiles, index: 0, ridge: 0 }
    }

    /// Position `b` steps clockwise from `a` on the circle of 136.
    pub fn add(a: usize, b: usize) -> (r: usize)
        requires
            a < 136,
            b <= 136,
        ensures
            r == (a + b) % 136,
    {
        if a + b >= 136 {
            a + b - 136
        } else {
            a + b
        }
    }

    /// Position `b` steps counterclockwise from `a` on the circle of 136.
    pub fn sub(a: usize, b: usize) -> (r: usize)
        requires
            a < 136,
            b <= 136,
        ensures
            r == (a + 136 - b) % 136,
    {
        if a >= b {
            a - b
        } else {
            136 + a - b
        }
    }

    pub fn len(&self) -> (r: usize)
        requires
            self.wf(),
        ensures
            r == self.len_spec(),
    {
        if self.index == self.ridge {
            136
        } else {
            Self::sub(self.index, self.ridge)
        }
    }

    /// Draws from the live end, or nothing once only the dead wall is left.
    pub fn next_back(&mut self) -> (r: Option<Tile>)
        requires
            old(self).wf(),
        ensures
            final(self).wf(),
            final(self).tiles@ == old(self).tiles@,
            final(self).ridge == old(self).ridge,
            old(self).len_spec() <= 14 ==> r is None && *final(self) == *old(self),
            old(self).len_spec() > 14 ==> r is Some && {
                &&& r->0 == old(self).live_seq().last()
                &&& (r->0).wf()
                &&& final(self).len_spec() == old(self).len_spec() - 1
                &&& final(self).live_seq() == old(self).live_seq().drop_last()
            },
    {
        if self.len() > Self::N_DEAD_WALL {
            self.index = Self::sub(self.index, 1);
            let i = self.index;
            let t = self.tiles[i];
            proof {
                let os = old(self).live_seq();
                assert(old(self).index == (old(self).ridge + old(self).len_spec()) % 136);
                assert(i as int == (self.ridge + (old(self).len_spec() - 1)) % 136);
                assert(t == os[old(self).len_spec() - 1]);
                assert(final(self).live_seq() =~= os.drop_last());
            }
            Some(t)
        } else {
            None
        }
    }

    /// Draws from the dead-wall end (replacement draws after a quad), or
    /// nothing once only the dead wall is left.
    pub fn next(&mut self) -> (r: Option<Tile>)
        requires
            old(self).wf(),
        ensures
            final(self).wf(),
            final(self).tiles@ == old(self).tiles@,
            final(self).index == old(self).index,
            old(self).len_spec() <= 14 ==> r is None && *final(self) == *old(self),
            old(self).len_spec() > 14 ==> r is Some && {
                &&& r->0 == old(self).live_seq().first()
                &&& (r->0).wf()
                &&& final(self).len_spec() == old(self).len_spec() - 1
                &&& final(self).live_seq() == old(self).live_seq().drop_first()
            },
    {
        if self.len() > Self::N_DEAD_WALL {
            let i = self.ridge;
            let t = self.tiles[i];
            self.ridge = Self::add(self.ridge, 1);
            proof {
                let os = old(self).live_seq();
                assert(t == os[0]);
                assert(old(self).index == (old(self).ridge + old(self).len_spec()) % 136);
                assert forall|k: int| 0 <= k < final(self).len_spec() implies
                    final(self).live_seq()[k] == os.drop_first()[k] by {
                    assert((old(self).ridge + (k + 1)) % 136 == (self.ridge + k) % 136);
                }
                assert(final(self).live_seq() =~= os.drop_first());
            }
            Some(t)
        } else {
            None
        }
    }

    /// A uniform reshuffle of all 136 tiles, driven by the thread's
    /// generator.  Whatever values come back, the wall stays a permutation
    /// of the full universe and the cursors do not move.
    pub fn shuffle(&mut self)
        requires
            old(self).wf(),
            old(self).distinct(),
        ensures
            final(self).wf(),
            final(self).distinct(),
            final(self).index == old(self).index,
            final(self).ridge == old(self).ridge,
    {
        for i in 0..136usize
            invariant
                self.wf(),
                self.distinct(),
                self.index == old(self).index,
                self.ridge == old(self).ridge,
        {
            let r: usize = rand::random();
            let j = r % (i + 1);
            if i != j {
                let a = self.tiles[i];
                let b = self.tiles[j];
                self.tiles.set(i, b);
                self.tiles.set(j, a);
            }
        }
    }

    /// Puts both cursors at `pos`: the conventional wall break before the
    /// deal, leaving the full circle live.
    pub fn make_break(&mut self, pos: usize)
        requires
            old(self).wf(),
            pos < 136,
        ensures
            final(self).wf(),
            final(self).tiles@ == old(self).tiles@,
            final(self).index == pos,
            final(self).ridge == pos,
            final(self).len_spec() == 136,
    {
        self.index = pos;
        self.ridge = pos;
    }
}

/// The whole shared playing state of one hand.
#[derive(Debug)]
pub struct Table {
    pub wall: Wall,
    pub lands: Lands,
    pub rivers: Rivers,
}

impl Table {
    pub open spec fn wf(self) -> bool {
        &&& self.wall.wf()
        &&& self.lands.wf()
        &&& self.rivers.wf()
    }

    pub fn new() -> (r: Self)
        ensures
            r.wf(),
            r.wall.distinct(),
            r.rivers.tiles@.len() == 0,
            forall|s: int| 0 <= s < 4 ==> (#[trigger] r.lands.tiles@[s]).total() == 0,
    {
        Table { wall: Wall::new(), lands: Lands::new(), rivers: Rivers::new() }
    }

    /// Clears hands, melds and discard piles and reshuffles the wall.
    pub fn shuffle_tiles(&mut self)
        requires
            old(self).wf(),
            old(self).wall.distinct(),
        ensures
            final(self).wf(),
            final(self).wall.distinct(),
            final(self).rivers.tiles@.len() == 0,
            final(self).lands.melds.melds@.len() == 0,
            forall|s: int| 0 <= s < 4 ==> (#[trigger] final(self).lands.tiles@[s]).total() == 0,
            forall|s: int, j: int| 0 <= s < 4 ==> !(#[trigger] final(self).lands.tiles@[s]
                .has_tile(j)),
            final(self).wall.index == old(self).wall.index,
            final(self).wall.ridge == old(self).wall.ridge,
    {
        self.lands.clear();
        self.rivers.clear();
        self.wall.shuffle();
    }

    /// Breaks the wall at the conventional dice offset.
    pub fn break_tiles(&mut self, dice: usize)
        requires
            old(self).wf(),
            dice <= 1000,
        ensures
            final(self).wf(),
            final(self).wall.tiles@ == old(self).wall.tiles@,
            final(self).wall.index == dice * 32 % 136,
            final(self).wall.ridge == dice * 32 % 136,
            final(self).wall.len_spec() == 136,
            final(self).lands == old(self).lands,
            final(self).rivers == old(self).rivers,
    {
        self.wall.make_break(dice * 32 % 136);
    }

    /// One live draw.
    pub fn draw_tile(&mut self) -> (r: Option<Tile>)
        requires
            old(self).wf(),
        ensures
            final(self).wf(),
            final(self).lands == old(self).lands,
            final(self).rivers == old(self).rivers,
            final(self).wall.tiles@ == old(self).wall.tiles@,
            final(self).wall.ridge == old(self).wall.ridge,
            old(self).wall.len_spec() <= 14 ==> r is None
                && final(self).wall == old(self).wall,
            old(self).wall.len_spec() > 14 ==> r is Some && {
                &&& r->0 == old(self).wall.live_seq().last()
                &&& (r->0).wf()
                &&& final(self).wall.len_spec() == old(self).wall.len_spec() - 1
                &&& final(self).wall.live_seq() == old(self).wall.live_seq().drop_last()
            },
    {
        self.wall.next_back()
    }

    /// One replacement draw from the dead-wall end.
    pub fn draw_replacement(&mut self) -> (r: Option<Tile>)
        requires
            old(self).wf(),
        ensures
            final(self).wf(),
            final(self).lands == old(self).lands,
            final(self).rivers == old(self).rivers,
            final(self).wall.tiles@ == old(self).wall.tiles@,
            final(self).wall.index == old(self).wall.index,
            old(self).wall.len_spec() <= 14 ==> r is None
                && final(self).wall == old(self).wall,
            old(self).wall.len_spec() > 14 ==> r is Some && {
                &&& r->0 == old(self).wall.live_seq().first()
                &&& (r->0).wf()
                &&& final(self).wall.len_spec() == old(self).wall.len_spec() - 1
                &&& final(self).wall.live_seq() == old(self).wall.live_seq().drop_first()
            },
    {
        self.wall.next()
    }
}

} // verus!
