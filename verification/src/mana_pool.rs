//! A player's mana pool and how a card's cost is paid from it.

use vstd::prelude::*;
use crate::types::SimCard;

verus! {

/// Mana pool: available mana per color W, U, B, R, G and colorless C.
#[derive(Clone, Copy)]
pub struct ManaPool {
    pub w: u8,
    pub u: u8,
    pub b: u8,
    pub r: u8,
    pub g: u8,
    pub c: u8,
}

/// The smaller of two integers.
pub open spec fn min_int(a: int, b: int) -> int {
    if a < b { a } else { b }
}

impl ManaPool {
    /// All mana in the pool, without any cap.
    pub open spec fn sum(&self) -> int {
        self.w + self.u + self.b + self.r + self.g + self.c
    }

    /// The colored pips and generic mana of `card`'s cost, together.
    pub open spec fn cost_of(card: SimCard) -> int {
        card.mana_w + card.mana_u + card.mana_b + card.mana_r + card.mana_g + card.mana_generic
    }

    /// Bit k set iff the pool holds mana of color k (W=0, U=1, B=2, R=3, G=4, C=5).
    pub open spec fn spec_color_mask(&self) -> u8 {
        (if self.w > 0 { 0x01u8 } else { 0u8 }) | (if self.u > 0 { 0x02u8 } else { 0u8 }) | (if self.b
            > 0 {
            0x04u8
        } else {
            0u8
        }) | (if self.r > 0 { 0x08u8 } else { 0u8 }) | (if self.g > 0 { 0x10u8 } else { 0u8 }) | (
        if self.c > 0 {
            0x20u8
        } else {
            0u8
        })
    }

    /// The pool after one more mana of each color whose bit is set in `mask`;
    /// every color saturates at 255.
    pub open spec fn spec_add_from_mask(&self, mask: u8) -> ManaPool {
        ManaPool {
            w: if mask & 0x01 != 0 { self.w.saturating_add(1) } else { self.w },
            u: if mask & 0x02 != 0 { self.u.saturating_add(1) } else { self.u },
            b: if mask & 0x04 != 0 { self.b.saturating_add(1) } else { self.b },
            r: if mask & 0x08 != 0 { self.r.saturating_add(1) } else { self.r },
            g: if mask & 0x10 != 0 { self.g.saturating_add(1) } else { self.g },
            c: if mask & 0x20 != 0 { self.c.saturating_add(1) } else { self.c },
        }
    }

    /// True iff the pool covers every colored pip of `card` and, after them,
    /// still holds at least its generic cost.
    pub open spec fn affords(&self, card: SimCard) -> bool {
        &&& self.w >= card.mana_w
        &&& self.u >= card.mana_u
        &&& self.b >= card.mana_b
        &&& self.r >= card.mana_r
        &&& self.g >= card.mana_g
        &&& self.sum() - card.mana_w - card.mana_u - card.mana_b - card.mana_r - card.mana_g
            >= card.mana_generic
    }

    /// The pool after paying `generic` mana: colorless first, then W, U, B,
    /// R and G in that order, each as far as it goes.
    pub open spec fn spend_generic(&self, generic: int) -> ManaPool {
        let dc = min_int(self.c as int, generic);
        let l1 = generic - dc;
        let dw = min_int(self.w as int, l1);
        let l2 = l1 - dw;
        let du = min_int(self.u as int, l2);
        let l3 = l2 - du;
        let db = min_int(self.b as int, l3);
        let l4 = l3 - db;
        let dr = min_int(self.r as int, l4);
        let l5 = l4 - dr;
        let dg = min_int(self.g as int, l5);
        ManaPool {
            w: (self.w - dw) as u8,
            u: (self.u - du) as u8,
            b: (self.b - db) as u8,
            r: (self.r - dr) as u8,
            g: (self.g - dg) as u8,
            c: (self.c - dc) as u8,
        }
    }

    /// The pool after paying `card`'s cost, or `None` if it cannot be paid.
    pub open spec fn spec_pay(&self, card: SimCard) -> Option<ManaPool> {
        if self.affords(card) {
            Some(
                ManaPool {
                    w: (self.w - card.mana_w) as u8,
                    u: (self.u - card.mana_u) as u8,
                    b: (self.b - card.mana_b) as u8,
                    r: (self.r - card.mana_r) as u8,
                    g: (self.g - card.mana_g) as u8,
                    c: self.c,
                }.spend_generic(card.mana_generic as int),
            )
        } else {
            None
        }
    }

    /// An empty pool.
    pub fn empty() -> (p: ManaPool)
        ensures
            p.sum() == 0,
            p == (ManaPool { w: 0, u: 0, b: 0, r: 0, g: 0, c: 0 }),
    {
        ManaPool { w: 0, u: 0, b: 0, r: 0, g: 0, c: 0 }
    }

    /// Total mana in the pool, capped at 255.
    pub fn total(&self) -> (t: u8)
        ensures
            t == min_int(self.sum(), 255),
    {
        self.w.saturating_add(self.u).saturating_add(self.b).saturating_add(self.r).saturating_add(
            self.g,
        ).saturating_add(self.c)
    }

    /// Color bitmask of the colors with at least one mana: W=bit 0, U=bit 1,
    /// B=bit 2, R=bit 3, G=bit 4, C=bit 5.
    pub fn color_mask(&self) -> (m: u8)
        ensures
            m == self.spec_color_mask(),
            m < 64,
    {
        proof {
            lemma_six_colors(self.w > 0, self.u > 0, self.b > 0, self.r > 0, self.g > 0, self.c > 0);
        }
        (if self.w > 0 { 0x01u8 } else { 0u8 }) | (if self.u > 0 { 0x02u8 } else { 0u8 }) | (if self.b
            > 0 {
            0x04u8
        } else {
            0u8
        }) | (if self.r > 0 { 0x08u8 } else { 0u8 }) | (if self.g > 0 { 0x10u8 } else { 0u8 }) | (
        if self.c > 0 {
            0x20u8
        } else {
            0u8
        })
    }

    /// Adds one mana of each color in a card's `color_mask` (a land or a
    /// mana-producing permanent being tapped).
    pub fn add_from_mask(&mut self, mask: u8)
        ensures
            *final(self) == old(self).spec_add_from_mask(mask),
    {
        if mask & 0x01 != 0 {
            self.w = self.w.saturating_add(1);
        }
        if mask & 0x02 != 0 {
            self.u = self.u.saturating_add(1);
        }
        if mask & 0x04 != 0 {
            self.b = self.b.saturating_add(1);
        }
        if mask & 0x08 != 0 {
            self.r = self.r.saturating_add(1);
        }
        if mask & 0x10 != 0 {
            self.g = self.g.saturating_add(1);
        }
        if mask & 0x20 != 0 {
            self.c = self.c.saturating_add(1);
        }
    }

    /// Tries to pay `card`'s mana cost. Returns true and deducts the cost on
    /// success; leaves the pool unchanged and returns false otherwise.
    pub fn pay(&mut self, card: &SimCard) -> (paid: bool)
        ensures
            paid == old(self).affords(*card),
            paid ==> old(self).spec_pay(*card) == Some(*final(self)),
            !paid ==> *final(self) == *old(self),
    {
        if self.w < card.mana_w {
            return false;
        }
        if self.u < card.mana_u {
            return false;
        }
        if self.b < card.mana_b {
            return false;
        }
        if self.r < card.mana_r {
            return false;
        }
        if self.g < card.mana_g {
            return false;
        }
        let remaining: u16 = (self.w - card.mana_w) as u16 + (self.u - card.mana_u) as u16 + (self.b
            - card.mana_b) as u16 + (self.r - card.mana_r) as u16 + (self.g - card.mana_g) as u16
            + self.c as u16;
        if remaining < card.mana_generic as u16 {
            return false;
        }
        self.w = self.w - card.mana_w;
        self.u = self.u - card.mana_u;
        self.b = self.b - card.mana_b;
        self.r = self.r - card.mana_r;
        self.g = self.g - card.mana_g;
        let mut generic_left: u16 = card.mana_generic as u16;
        let dc: u16 = if generic_left < self.c as u16 { generic_left } else { self.c as u16 };
        self.c = self.c - dc as u8;
        generic_left = generic_left - dc;
        let dw: u16 = if generic_left < self.w as u16 { generic_left } else { self.w as u16 };
        self.w = self.w - dw as u8;
        generic_left = generic_left - dw;
        let du: u16 = if generic_left < self.u as u16 { generic_left } else { self.u as u16 };
        self.u = self.u - du as u8;
        generic_left = generic_left - du;
        let db: u16 = if generic_left < self.b as u16 { generic_left } else { self.b as u16 };
        self.b = self.b - db as u8;
        generic_left = generic_left - db;
        let dr: u16 = if generic_left < self.r as u16 { generic_left } else { self.r as u16 };
        self.r = self.r - dr as u8;
        generic_left = generic_left - dr;
        let dg: u16 = if generic_left < self.g as u16 { generic_left } else { self.g as u16 };
        self.g = self.g - dg as u8;
        true
    }

    /// True iff `card`'s cost could be paid from this pool.
    pub fn can_pay(&self, card: &SimCard) -> (b: bool)
        ensures
            b == self.affords(*card),
    {
        let mut copy = *self;
        copy.pay(card)
    }
}

/// Paying a cost spends exactly that cost: when a card is affordable, the pool
/// afterwards holds the mana it held before minus the card's colored pips and
/// generic cost, and no color goes below zero.
pub proof fn lemma_pay_spends_exact_cost(pool: ManaPool, card: SimCard)
    requires
        pool.affords(card),
    ensures
        pool.spec_pay(card) is Some,
        pool.spec_pay(card).unwrap().sum() == pool.sum() - ManaPool::cost_of(card),
{
}

/// Each colored pip is paid with mana of its own color: after paying, every
/// color holds at most what it held minus the card's pips of that color
/// (generic mana may take more), and colorless mana only falls. While the
/// colorless mana covers the generic cost, it pays all of it and every color
/// loses exactly its pips.
pub proof fn lemma_pay_colors_pay_their_pips(pool: ManaPool, card: SimCard)
    requires
        pool.affords(card),
    ensures
        pool.spec_pay(card) matches Some(p) && {
            &&& p.w <= pool.w - card.mana_w
            &&& p.u <= pool.u - card.mana_u
            &&& p.b <= pool.b - card.mana_b
            &&& p.r <= pool.r - card.mana_r
            &&& p.g <= pool.g - card.mana_g
            &&& p.c <= pool.c
            &&& (card.mana_generic <= pool.c ==> p == ManaPool {
                w: (pool.w - card.mana_w) as u8,
                u: (pool.u - card.mana_u) as u8,
                b: (pool.b - card.mana_b) as u8,
                r: (pool.r - card.mana_r) as u8,
                g: (pool.g - card.mana_g) as u8,
                c: (pool.c - card.mana_generic) as u8,
            })
        },
{
}

/// Nothing is paid for a card that is not affordable.
pub proof fn lemma_pay_refuses_unaffordable(pool: ManaPool, card: SimCard)
    requires
        !pool.affords(card),
    ensures
        pool.spec_pay(card) is None,
{
}

/// A color mask built from the six colors uses bits 0-5 only.
proof fn lemma_six_colors(w: bool, u: bool, b: bool, r: bool, g: bool, c: bool)
    ensures
        ((if w { 0x01u8 } else { 0u8 }) | (if u { 0x02u8 } else { 0u8 }) | (if b { 0x04u8 } else { 0u8 })
            | (if r { 0x08u8 } else { 0u8 }) | (if g { 0x10u8 } else { 0u8 }) | (if c { 0x20u8 } else { 0u8 }))
            < 64,
{
    assert(((if w { 0x01u8 } else { 0u8 }) | (if u { 0x02u8 } else { 0u8 }) | (if b { 0x04u8 } else { 0u8 })
        | (if r { 0x08u8 } else { 0u8 }) | (if g { 0x10u8 } else { 0u8 }) | (if c { 0x20u8 } else { 0u8 }))
        < 64) by (bit_vector);
}

} // verus!
