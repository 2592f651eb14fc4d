//! What the page sets: how fast the cube spins and what colour it has.
use crate::arithmetic::{
    law_product_commutes, law_product_goes_by_values, law_product_with_fraction,
    law_product_with_zero, lemma_zero,
};
use crate::motion::{
    law_cube_tilts_by_speed_and_time, law_cube_turns_by_speed_and_time, multiplied, tilted,
};
use crate::single::{law_value_of_fields, Single};
use vstd::arithmetic::power2::{lemma2_to64, lemma_pow2_adds};
use vstd::prelude::*;

verus! {

/// The bits of 1.0, the speed at the start.
pub const START_SPEED: u32 = 0x3f80_0000;

/// The bits of 0.3, 0.5 and 0.9, the colour at the start.
pub const START_RED: u32 = 0x3e99_999a;

pub const START_GREEN: u32 = 0x3f00_0000;

pub const START_BLUE: u32 = 0x3f66_6666;

/// The bits of 0.4: how fast the cube tilts beside how fast it turns.
pub const TILT: u32 = 0x3ecc_cccd;

/// An opaque colour by its sRGB components.
#[derive(Clone, Copy, PartialEq, Eq, Structural, Debug)]
pub struct Color {
    pub red: Single,
    pub green: Single,
    pub blue: Single,
}

impl Color {
    /// The colour with the given components.
    pub fn srgb(red: Single, green: Single, blue: Single) -> (r: Color)
        ensures
            r == (Color { red, green, blue }),
    {
        Color { red, green, blue }
    }
}

/// What the page controls.
#[derive(Clone, Copy, PartialEq, Eq, Structural, Debug)]
pub struct Controls {
    /// The cube's angular speed.
    pub speed: Single,
    /// The cube's colour.
    pub color: Color,
}

impl Controls {
    /// The controls before the page has set any.
    pub open spec fn initial() -> Controls {
        Controls {
            speed: Single { bits: START_SPEED },
            color: Color {
                red: Single { bits: START_RED },
                green: Single { bits: START_GREEN },
                blue: Single { bits: START_BLUE },
            },
        }
    }

    /// By how much the cube turns about the second axis, and then about the first, in a frame
    /// of the given length.
    pub open spec fn turns(self, delta: Single) -> (Single, Single) {
        (self.speed.product(delta), self.speed.product(Single { bits: TILT }).product(delta))
    }

    /// By how much the cube turns about the second axis, and then about the first, in a frame
    /// of the given length.
    pub fn spin(&self, delta: Single) -> (r: (Single, Single))
        ensures
            r == self.turns(delta),
            self.speed.finite() && delta.finite() ==> {
                &&& multiplied(r.0, self.speed.value() * delta.value())
                &&& tilted(r.1, self.speed.value(), delta.value())
            },
    {
        proof {
            if self.speed.finite() && delta.finite() {
                law_cube_turns_by_speed_and_time(*self, delta);
                law_cube_tilts_by_speed_and_time(*self, delta);
            }
        }
        (self.speed.times(delta), self.speed.times(Single::from_bits(TILT)).times(delta))
    }

    /// Gives the cube's material the colour that was set.
    pub fn apply_controls(&self, base_color: &mut Color)
        ensures
            *final(base_color) == self.color,
    {
        *base_color = self.color;
    }
}

/// Without speed, or without time, the cube rests.
pub proof fn law_cube_rests_without_speed_or_time(controls: Controls, delta: Single)
    requires
        controls.speed.finite(),
        delta.finite(),
        controls.speed.value() == 0 || delta.value() == 0,
    ensures
        controls.turns(delta).0.value() == 0,
        controls.turns(delta).1.value() == 0,
{
    let tilt = Single { bits: TILT };
    let (turn, tilted) = (controls.speed, controls.speed.product(tilt));
    assert(tilted.finite()) by {
        law_value_of_fields(tilt, 125, 0x4c_cccd);
        lemma2_to64();
        lemma_pow2_adds(124, 25);
        law_product_with_fraction(turn, tilt);
    }
    if controls.speed.value() == 0 {
        law_product_with_zero(turn, tilt);
        lemma_zero(tilted);
        law_product_with_zero(turn, delta);
        law_product_with_zero(tilted, delta);
    } else {
        law_product_with_zero(delta, turn);
        law_product_with_zero(delta, tilted);
        law_product_commutes(delta, turn);
        law_product_commutes(delta, tilted);
    }
    lemma_zero(turn.product(delta));
    lemma_zero(tilted.product(delta));
}

/// With the opposite speed the cube turns back by as much.
pub proof fn law_opposite_speed_turns_back(controls: Controls, delta: Single)
    requires
        !controls.turns(delta).0.nan(),
        !controls.turns(delta).1.nan(),
    ensures
        ({
            let back = (Controls { speed: controls.speed.opposite(), ..controls }).turns(delta);
            &&& back.0.value() == -controls.turns(delta).0.value()
            &&& back.1.value() == -controls.turns(delta).1.value()
        }),
{
    let (speed, tilt) = (controls.speed, Single { bits: TILT });
    let opposite = speed.opposite();
    assert(opposite.low_bits() == speed.low_bits());
    assert(opposite.value() == -speed.value());
    law_product_goes_by_values(speed, delta, opposite, delta, true, false);
    law_product_goes_by_values(speed, tilt, opposite, tilt, true, false);
    law_product_goes_by_values(
        speed.product(tilt),
        delta,
        opposite.product(tilt),
        delta,
        true,
        false,
    );
}

impl Default for Controls {
    fn default() -> (r: Controls)
        ensures
            r == Controls::initial(),
    {
        Controls {
            speed: Single::from_bits(START_SPEED),
            color: Color::srgb(
                Single::from_bits(START_RED),
                Single::from_bits(START_GREEN),
                Single::from_bits(START_BLUE),
            ),
        }
    }
}

} // verus!
