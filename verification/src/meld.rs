//! Exposed melds: a committed group plus its provenance, packed in one word.
//!
//! A meld does not store its owner.  It records which discard-pile entry was
//! claimed to complete it, and the owner is whoever robbed that entry; a meld
//! is therefore only meaningful next to the discard pile it points into.

use vstd::prelude::*;

use crate::table::{Rivers, Wind};
use crate::tile::Group;

verus! {

/// A committed exposed group: the group byte in the low eight bits, the
/// claimed discard's index above it, and the added tile's index above that.
#[derive(Copy, Clone, Debug, PartialEq, Eq, Structural)]
pub struct Meld(pub u32);

impl Meld {
    /// The committed group in the low byte.
    pub open spec fn set_spec(self) -> Group {
        Group((self.0 & 0xff) as u8)
    }

    /// The discard-pile index of the claimed tile.
    pub open spec fn robbed_spec(self) -> int {
        ((self.0 >> 8) & 0xff) as int
    }

    /// The discard-pile index of the tile later added to upgrade the group.
    pub open spec fn added_spec(self) -> int {
        ((self.0 >> 16) & 0xff) as int
    }

    pub fn from_raw(raw: usize) -> (r: Self)
        ensures
            r.0 == raw as u32,
    {
        Meld(#[verifier::truncate] (raw as u32))
    }

    pub fn raw(self) -> (r: usize)
        ensures
            r == self.0 as int,
    {
        self.0 as usize
    }

    /// How the packed fields read back out through word-sized arithmetic.
    proof fn lemma_read_bits(y: u32)
        ensures
            (y as usize & 0xff) as u8 == (y & 0xff) as u8,
            (y as usize & 0xff00) >> 8 == ((y >> 8) & 0xff) as usize,
            ((y >> 8) & 0xff) < 256,
            (y as usize & 0xff0000) >> 16 == ((y >> 16) & 0xff) as usize,
            ((y >> 16) & 0xff) < 256,
    {
        assert((y as usize & 0xff) as u8 == (y & 0xff) as u8
            && (y as usize & 0xff00) >> 8 == ((y >> 8) & 0xff) as usize
            && ((y >> 8) & 0xff) < 256
            && (y as usize & 0xff0000) >> 16 == ((y >> 16) & 0xff) as usize
            && ((y >> 16) & 0xff) < 256) by (bit_vector);
    }

    /// Packs a fresh meld: the group and the claimed discard's index, with
    /// no added tile yet.
    pub fn from_set_robinfo(set: Group, robbed_from: usize) -> (r: Self)
        requires
            robbed_from < 256,
        ensures
            r.set_spec() == set,
            r.robbed_spec() == robbed_from,
            r.added_spec() == 0,
    {
        let mut raw: usize = 0;
        raw |= set.raw();
        raw |= robbed_from << 8;
        let r = Self::from_raw(raw);
        proof {
            let sv = set.0;
            let rf = robbed_from as u32;
            let y = r.0;
            assert(y & 0xff == sv && (y >> 8) & 0xff == rf && (y >> 16) & 0xff == 0)
                by (bit_vector)
                requires
                    rf < 256,
                    y == ((0usize | sv as usize | ((rf as usize) << 8)) as u32);
            assert((y & 0xff) as u8 == sv);
        }
        r
    }

    pub fn set(self) -> (r: Group)
        ensures
            r == self.set_spec(),
    {
        proof {
            Self::lemma_read_bits(self.0);
        }
        Group::from_raw(self.raw() & 0xff)
    }

    /// The owner of this meld: whoever robbed the discard it points at, read
    /// from the pile.  Nothing if the pile no longer reaches that far, or if
    /// the entry carries no rob mark.
    pub fn wind(self, river: &Rivers) -> (r: Option<Wind>)
        ensures
            r == if self.robbed_spec() < river.tiles@.len()
                && river.tiles@[self.robbed_spec()].robbed_spec() {
                Some(Wind(river.tiles@[self.robbed_spec()].robbedby_spec() as u8))
            } else {
                Option::<Wind>::None
            },
    {
        let got = river.get(self.robbed_from());
        match got {
            Some(d) => d.robbed_by(),
            None => None,
        }
    }

    pub fn robbed_from(self) -> (r: usize)
        ensures
            r == self.robbed_spec(),
            r < 256,
    {
        proof {
            Self::lemma_read_bits(self.0);
        }
        (self.raw() & 0xff00) >> 8
    }

    pub fn added_from(self) -> (r: usize)
        ensures
            r == self.added_spec(),
            r < 256,
    {
        proof {
            Self::lemma_read_bits(self.0);
        }
        (self.raw() & 0xff0000) >> 16
    }

    /// Records the index of the concealed tile added to upgrade a triplet to
    /// a quad: the one mutation a meld ever sees.
    pub fn set_addinfo(&mut self, added_from: usize)
        requires
            added_from < 256,
            old(self).added_spec() == 0,
        ensures
            final(self).set_spec() == old(self).set_spec(),
            final(self).robbed_spec() == old(self).robbed_spec(),
            final(self).added_spec() == added_from,
    {
        let mut raw = self.raw();
        raw |= added_from << 16;
        let r = Self::from_raw(raw);
        proof {
            let x = self.0;
            let af = added_from as u32;
            let y = r.0;
            assert(y & 0xff == x & 0xff && (y >> 8) & 0xff == (x >> 8) & 0xff
                && (y >> 16) & 0xff == af) by (bit_vector)
                requires
                    af < 256,
                    (x >> 16) & 0xff == 0,
                    y == ((x as usize | ((af as usize) << 16)) as u32);
            assert((y & 0xff) as u8 == (x & 0xff) as u8);
        }
        *self = r;
    }
}

} // verus!
