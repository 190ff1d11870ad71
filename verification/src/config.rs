//! The coefficients of a simulation, gathered in one structure that is
//! handed to a shape when it is built.
use crate::fixed::Fixed;
use crate::vector::{Point, Vec2};
use vstd::prelude::*;

verus! {

/// The mathematical model of a [`Config`].
pub struct ConfigView {
    pub gravity: Point,
    pub drag_coefficient: int,
    pub elasticity: int,
    pub friction: int,
}

/// The coefficients that govern how a shape moves and collides.
#[derive(Clone, Copy, Debug, PartialEq, Eq, Structural)]
pub struct Config {
    /// Acceleration applied to every unlocked point, per step.
    pub gravity: Vec2,
    /// Strength of the quadratic drag.
    pub drag_coefficient: Fixed,
    /// Factor applied to the normal velocities after a collision.
    pub elasticity: Fixed,
    /// Fraction of the tangential velocity that a collision removes.
    pub friction: Fixed,
}

impl View for Config {
    type V = ConfigView;

    open spec fn view(&self) -> ConfigView {
        ConfigView {
            gravity: self.gravity@,
            drag_coefficient: self.drag_coefficient@,
            elasticity: self.elasticity@,
            friction: self.friction@,
        }
    }
}

impl Config {
    /// The given coefficients.
    pub fn new(gravity: Vec2, drag_coefficient: Fixed, elasticity: Fixed, friction: Fixed) -> (r:
        Config)
        ensures
            r == (Config { gravity, drag_coefficient, elasticity, friction }),
    {
        Config { gravity, drag_coefficient, elasticity, friction }
    }

    /// Downward gravity of 1000, drag 0.003, elasticity 0.5 and friction
    /// 0.75, with the y axis pointing down as on a screen.
    pub fn standard() -> (r: Config)
        ensures
            r@ == (ConfigView {
                gravity: Point { x: 0, y: 1_000_000 },
                drag_coefficient: 3,
                elasticity: 500,
                friction: 750,
            }),
    {
        Config {
            gravity: Vec2::from_ints(0, 1000),
            drag_coefficient: Fixed::from_raw(3),
            elasticity: Fixed::from_raw(500),
            friction: Fixed::from_raw(750),
        }
    }
}

} // verus!
