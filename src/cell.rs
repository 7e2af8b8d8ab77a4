use vstd::prelude::*;

verus! {

/// Bit of a cell that has not been initialised yet.
pub const BIT_CELL_UNDEF: u8 = 0b000;
/// Terrain bit: open floor.
pub const BIT_CELL_SPACE: u8 = 0b001;
/// Terrain bit: uncarved wall.
pub const BIT_CELL_WALL: u8 = 0b010;
/// Marker bit: the carver retreated from this cell.
pub const BIT_FLAG_DEADEND: u8 = 0b100;

/// One grid cell: a small set of independent flags packed into a byte.
#[derive(Clone, Copy, PartialEq, Eq, Structural, Debug)]
pub struct Flag {
    bits: u8,
}

impl Flag {
    pub closed spec fn has_space(self) -> bool {
        self.bits & BIT_CELL_SPACE != 0
    }

    pub closed spec fn has_wall(self) -> bool {
        self.bits & BIT_CELL_WALL != 0
    }

    pub closed spec fn has_deadend(self) -> bool {
        self.bits & BIT_FLAG_DEADEND != 0
    }

    /// The value of a plain wall.
    pub closed spec fn plain_wall() -> Flag {
        Flag { bits: BIT_CELL_WALL }
    }

    /// The value of plain open floor.
    pub closed spec fn plain_space() -> Flag {
        Flag { bits: BIT_CELL_SPACE }
    }

    /// This value with the dead-end marker set.
    pub closed spec fn marked(self) -> Flag {
        Flag { bits: self.bits | BIT_FLAG_DEADEND }
    }

    pub proof fn lemma_values()
        ensures
            Flag::plain_wall().has_wall(),
            !Flag::plain_wall().has_space(),
            !Flag::plain_wall().has_deadend(),
            Flag::plain_space().has_space(),
            !Flag::plain_space().has_wall(),
            !Flag::plain_space().has_deadend(),
            forall|f: Flag|
                #![trigger f.marked()]
                f.marked().has_space() == f.has_space() && f.marked().has_wall() == f.has_wall()
                    && f.marked().has_deadend(),
    {
        assert(2u8 & 1u8 == 0u8 && 2u8 & 2u8 != 0u8 && 2u8 & 4u8 == 0u8) by (bit_vector);
        assert(1u8 & 1u8 != 0u8 && 1u8 & 2u8 == 0u8 && 1u8 & 4u8 == 0u8) by (bit_vector);
        assert forall|f: Flag|
            #![trigger f.marked()]
            f.marked().has_space() == f.has_space() && f.marked().has_wall() == f.has_wall()
                && f.marked().has_deadend() by {
            let b = f.bits;
            assert((b | 4u8) & 1u8 == b & 1u8 && (b | 4u8) & 2u8 == b & 2u8 && (b | 4u8) & 4u8
                != 0u8) by (bit_vector);
        }
    }

    /// A settled cell: exactly one terrain bit, and the marker only on open floor.
    pub open spec fn settled(self) -> bool {
        &&& self.has_space() != self.has_wall()
        &&& self.has_deadend() ==> self.has_space()
    }

    /// The zero value that a cell holds before the grid is filled.
    pub fn undefined() -> (r: Flag)
        ensures
            !r.has_space(),
            !r.has_wall(),
            !r.has_deadend(),
    {
        let r = Flag { bits: BIT_CELL_UNDEF };
        assert(0u8 & 1u8 == 0u8 && 0u8 & 2u8 == 0u8 && 0u8 & 4u8 == 0u8) by (bit_vector);
        r
    }

    /// A plain wall, with no marker.
    pub fn wall() -> (r: Flag)
        ensures
            r == Flag::plain_wall(),
            !r.has_space(),
            r.has_wall(),
            !r.has_deadend(),
    {
        proof {
            Flag::lemma_values();
        }
        Flag { bits: BIT_CELL_WALL }
    }

    /// Plain open floor, with no marker.
    pub fn space() -> (r: Flag)
        ensures
            r == Flag::plain_space(),
            r.has_space(),
            !r.has_wall(),
            !r.has_deadend(),
    {
        proof {
            Flag::lemma_values();
        }
        Flag { bits: BIT_CELL_SPACE }
    }

    /// Sets the dead-end marker and leaves the terrain bits as they are.
    pub fn add_deadend(&mut self)
        ensures
            *final(self) == old(self).marked(),
            final(self).has_space() == old(self).has_space(),
            final(self).has_wall() == old(self).has_wall(),
            final(self).has_deadend(),
    {
        proof {
            Flag::lemma_values();
        }
        self.bits = self.bits | BIT_FLAG_DEADEND;
    }

    pub fn is_space(&self) -> (r: bool)
        ensures
            r == self.has_space(),
    {
        self.bits & BIT_CELL_SPACE != 0
    }

    pub fn is_wall(&self) -> (r: bool)
        ensures
            r == self.has_wall(),
    {
        self.bits & BIT_CELL_WALL != 0
    }

    pub fn is_deadend(&self) -> (r: bool)
        ensures
            r == self.has_deadend(),
    {
        self.bits & BIT_FLAG_DEADEND != 0
    }
}

} // verus!
