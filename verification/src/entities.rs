use vstd::prelude::*;

verus! {

/// An RGBA image: `width * height` pixels of four bytes, row by row.
pub struct Sprite {
    pub pixels: Vec<u8>,
    pub width: u32,
    pub height: u32,
}

/// Whether the box of size `aw` by `ah` at `a` overlaps the box of size
/// `bw` by `bh` at `b` (the heights taken as `i32`, as the game's vertical
/// coordinates are).
pub open spec fn boxes_overlap(a: (u32, i32), aw: u32, ah: u32, b: (u32, i32), bw: u32, bh: u32) -> bool {
    &&& a.0 < b.0 + bw
    &&& a.0 + aw > b.0
    &&& a.1 < b.1 + (bh as i32)
    &&& a.1 + (ah as i32) > b.1
}

/// Whether the overlap test can be carried out without overflow: each sum
/// that the test reaches, testing left to right and stopping at the first
/// failed comparison, fits its type.
pub open spec fn overlap_computable(a: (u32, i32), aw: u32, ah: u32, b: (u32, i32), bw: u32, bh: u32) -> bool {
    &&& b.0 + bw <= u32::MAX
    &&& a.0 < b.0 + bw ==> a.0 + aw <= u32::MAX
    &&& a.0 < b.0 + bw && a.0 + aw > b.0 ==> i32::MIN <= b.1 + (bh as i32) <= i32::MAX
    &&& a.0 < b.0 + bw && a.0 + aw > b.0 && a.1 < b.1 + (bh as i32) ==> i32::MIN <= a.1 + (ah
        as i32) <= i32::MAX
}

/// Something on the playfield that can be hit: it has a position (its
/// top-left corner) and is either active or not.
pub trait Collidable {
    /// The position, as `pos` reports it.
    spec fn position(&self) -> (u32, i32);

    /// Whether it is active, as `is_active` reports it.
    spec fn active(&self) -> bool;

    /// The top-left corner.
    fn pos(&self) -> (r: (u32, i32))
        ensures
            r == self.position(),
    ;

    /// Activates or deactivates it; deactivating always leaves it inactive.
    fn set_active(&mut self, active: bool)
        ensures
            !active ==> !final(self).active(),
    ;

    /// Whether it is active.
    fn is_active(&self) -> (r: bool)
        ensures
            r == self.active(),
    ;
}

/// Whether the bounding boxes of `a` (of `a_s`'s size) and `b` (of
/// `b_s`'s size) overlap: the axis-aligned box test on their positions.
pub fn collides_with<A: Collidable, B: Collidable>(a: &A, b: &B, a_s: &Sprite, b_s: &Sprite) -> (r: bool)
    requires
        overlap_computable(a.position(), a_s.width, a_s.height, b.position(), b_s.width, b_s.height),
    ensures
        r == boxes_overlap(a.position(), a_s.width, a_s.height, b.position(), b_s.width, b_s.height),
{
    boxes_touch(a.pos(), a_s.width, a_s.height, b.pos(), b_s.width, b_s.height)
}

/// Whether the box of size `aw` by `ah` at `a` overlaps the box of size
/// `bw` by `bh` at `b` (see `boxes_overlap`).
pub fn boxes_touch(a: (u32, i32), aw: u32, ah: u32, b: (u32, i32), bw: u32, bh: u32) -> (r: bool)
    requires
        overlap_computable(a, aw, ah, b, bw, bh),
    ensures
        r == boxes_overlap(a, aw, ah, b, bw, bh),
{
    let (ax, ay) = a;
    let (bx, by) = b;
    ax < bx + bw && ax + aw > bx && ay < by + bh as i32 && ay + ah as i32 > by
}

/// Overlap does not depend on which of the two boxes is named first.
pub proof fn lemma_overlap_symmetric(a: (u32, i32), aw: u32, ah: u32, b: (u32, i32), bw: u32, bh: u32)
    ensures
        boxes_overlap(a, aw, ah, b, bw, bh) == boxes_overlap(b, bw, bh, a, aw, ah),
{
}

/// A shot fired by the player's ship.
pub struct Beam {
    pub x: u32,
    pub y: i32,
    pub sprite_idx: usize,
}

impl Collidable for Beam {
    open spec fn position(&self) -> (u32, i32) {
        (self.x, self.y)
    }

    /// A beam is active until it is more than 100 pixels above the screen.
    open spec fn active(&self) -> bool {
        self.y > -100
    }

    fn pos(&self) -> (r: (u32, i32)) {
        (self.x, self.y)
    }

    fn is_active(&self) -> (r: bool) {
        self.y > -100
    }

    /// Deactivating moves the beam far above the screen; activating changes
    /// nothing.
    fn set_active(&mut self, active: bool)
        ensures
            !active ==> final(self).y == -1000 && final(self).x == old(self).x && final(self).sprite_idx
                == old(self).sprite_idx,
            active ==> *final(self) == *old(self),
    {
        if !active {
            self.y = -1000;
        }
    }
}

/// An enemy ship.
pub struct Enemy {
    pub x: u32,
    pub y: u32,
    pub active: bool,
    pub sprite_idx: usize,
}

impl Collidable for Enemy {
    open spec fn position(&self) -> (u32, i32) {
        (self.x, self.y as i32)
    }

    open spec fn active(&self) -> bool {
        self.active
    }

    fn pos(&self) -> (r: (u32, i32)) {
        (self.x, self.y as i32)
    }

    fn set_active(&mut self, active: bool)
        ensures
            final(self).active == active,
            final(self).x == old(self).x,
            final(self).y == old(self).y,
            final(self).sprite_idx == old(self).sprite_idx,
    {
        self.active = active;
    }

    fn is_active(&self) -> (r: bool) {
        self.active
    }
}

/// The player's ship: its top-left corner, its sprite and whether it is
/// still in play.
pub struct Ship {
    pub x: u32,
    pub y: u32,
    pub sprite_idx: usize,
    pub active: bool,
}

impl Collidable for Ship {
    open spec fn position(&self) -> (u32, i32) {
        (self.x, self.y as i32)
    }

    open spec fn active(&self) -> bool {
        self.active
    }

    fn pos(&self) -> (r: (u32, i32)) {
        (self.x, self.y as i32)
    }

    fn is_active(&self) -> (r: bool) {
        self.active
    }

    fn set_active(&mut self, active: bool)
        ensures
            final(self).active == active,
            final(self).x == old(self).x,
            final(self).y == old(self).y,
            final(self).sprite_idx == old(self).sprite_idx,
    {
        self.active = active;
    }
}

} // verus!
