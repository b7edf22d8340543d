//! The per-slot metadata byte codec.
//!
//! Each slot of the table carries one byte. The value 0xff marks an empty
//! slot. Any other value describes an occupied slot: the high bit tells a
//! storage slot (a chain member hosted away from its own direct-hit
//! coordinate) from a chain head, and the low seven bits hold the slot's
//! jump index into the jump-distance table (zero meaning "no successor").
use vstd::prelude::*;

verus! {

/// The spec-level reading of a metadata byte: is the slot empty?
pub open spec fn meta_empty(b: u8) -> bool {
    b == 0xff
}

/// The spec-level reading of a metadata byte: does it carry the storage role?
/// (Meaningful only for an occupied byte.)
pub open spec fn meta_storage(b: u8) -> bool {
    b >= 0x80
}

/// The spec-level reading of a metadata byte: its jump index.
/// (Meaningful only for an occupied byte.)
pub open spec fn meta_jump(b: u8) -> int {
    if b >= 0x80 {
        b - 0x80
    } else {
        b as int
    }
}

/// One metadata byte.
#[derive(Clone, Copy, Debug, PartialEq, Eq, Structural)]
pub struct Metadata(pub u8);

impl Metadata {
    pub fn is_empty(&self) -> (r: bool)
        ensures
            r == meta_empty(self.0),
    {
        self.0 == 0b11111111
    }

    pub fn is_storage(&self) -> (r: bool)
        ensures
            r == meta_storage(self.0),
    {
        proof {
            let b = self.0;
            assert((b & 0b10000000 == 0b10000000) == (b >= 0x80)) by (bit_vector);
        }
        self.0 & 0b10000000 == 0b10000000
    }

    pub fn jump_length(&self) -> (r: u8)
        requires
            !meta_empty(self.0),
        ensures
            r as int == meta_jump(self.0),
            r <= 0x7f,
    {
        proof {
            let b = self.0;
            assert(b >= 0x80 ==> b & 0b01111111 == b - 0x80) by (bit_vector);
            assert(b < 0x80 ==> b & 0b01111111 == b) by (bit_vector);
            assert(b & 0b01111111 <= 0x7f) by (bit_vector);
        }
        self.0 & 0b01111111
    }

    pub fn set_storage(&mut self, storage: bool)
        ensures
            final(self).0 == if storage {
                old(self).0 | 0b10000000
            } else {
                old(self).0 & 0b01111111
            },
            meta_jump(final(self).0) == meta_jump(old(self).0),
            meta_storage(final(self).0) == storage,
            meta_jump(old(self).0) <= 125 ==> !meta_empty(final(self).0),
    {
        proof {
            let b = self.0;
            assert((b | 0b10000000) >= 0x80 && (b | 0b10000000) - 0x80 == (if b >= 0x80 {
                b - 0x80
            } else {
                b as int
            })) by (bit_vector);
            assert((b & 0b01111111) < 0x80 && (b & 0b01111111) == (if b >= 0x80 {
                b - 0x80
            } else {
                b as int
            })) by (bit_vector);
        }
        if storage {
            self.0 |= 0b10000000;
        } else {
            self.0 &= 0b01111111;
        }
    }

    pub fn set_empty(&mut self)
        ensures
            final(self).0 == 0xff,
    {
        self.0 = 0b11111111;
    }

    pub fn set_jump(&mut self, jump: u8)
        requires
            jump & 0b10000000 == 0,
        ensures
            final(self).0 == (old(self).0 & 0b10000000) | jump,
            meta_storage(final(self).0) == meta_storage(old(self).0),
            meta_jump(final(self).0) == jump as int,
            jump <= 125 ==> !meta_empty(final(self).0),
    {
        proof {
            let b = self.0;
            let j = jump;
            assert(j & 0b10000000 == 0 ==> j < 0x80) by (bit_vector);
            assert(j < 0x80 && b >= 0x80 ==> ((b & 0b10000000) | j) >= 0x80 && ((b & 0b10000000)
                | j) - 0x80 == j) by (bit_vector);
            assert(j < 0x80 && b < 0x80 ==> ((b & 0b10000000) | j) == j) by (bit_vector);
        }
        self.0 &= 0b10000000;
        self.0 |= jump;
    }
}

impl Default for Metadata {
    /// A fresh metadata byte marks an empty slot.
    fn default() -> (r: Self)
        ensures
            r.0 == 0xff,
    {
        Metadata(0b11111111)
    }
}

} // verus!
