//! The two building blocks of a soft body: point masses and the damped
//! springs that connect them.
use crate::fixed::{
    fx_add, fx_div, fx_mul, fx_sqrt, fx_sub, in_range, lemma_div_trunc_neg, magnitude, Fixed,
    PI_RAW, SCALE,
};
use crate::math::inverse_lerp_f32;
use crate::vector::{
    dot_exact, lemma_normalize_neg, norm2, v_add, v_div, v_dot, v_length, v_neg, v_normalize,
    v_scale, v_sub, Point, Vec2,
};
use vstd::prelude::*;

verus! {

/// The mathematical model of a [`PointMass`].
pub struct PointMassView {
    pub locked: bool,
    pub mass: int,
    pub diameter: int,
    pub position: Point,
    pub velocity: Point,
    pub net_force: Point,
}

/// A simulated particle.
///
/// `net_force` accumulates the forces of one step and is cleared by
/// [`PointMass::update`]. A locked particle is exempt from integration: its
/// position and velocity change only when they are assigned.
#[derive(Clone, Copy, Debug, PartialEq, Eq, Structural)]
pub struct PointMass {
    pub locked: bool,
    pub mass: Fixed,
    pub diameter: Fixed,
    pub position: Vec2,
    pub velocity: Vec2,
    pub net_force: Vec2,
}

impl View for PointMass {
    type V = PointMassView;

    open spec fn view(&self) -> PointMassView {
        PointMassView {
            locked: self.locked,
            mass: self.mass@,
            diameter: self.diameter@,
            position: self.position@,
            velocity: self.velocity@,
            net_force: self.net_force@,
        }
    }
}

/// The diameter of a disc of the given mass and unit density:
/// `2 * sqrt(mass / pi)`.
pub open spec fn diameter_of(mass: int) -> int {
    fx_mul(2 * SCALE, fx_sqrt(fx_div(mass, PI_RAW as int)))
}

/// The particle after `force` has been added to its accumulator.
pub open spec fn with_force(p: PointMassView, force: Point) -> PointMassView {
    PointMassView { net_force: v_add(p.net_force, force), ..p }
}

/// The particle after the force of the acceleration `accel` has been added
/// to its accumulator: the acceleration times the particle's mass.
pub open spec fn with_gravity(p: PointMassView, accel: Point) -> PointMassView {
    with_force(p, v_scale(accel, p.mass))
}

/// The particle after one semi-implicit Euler step of length `dt`: the
/// velocity first takes up the accumulated force, the position then moves by
/// the new velocity, and the accumulator is cleared. A locked particle is
/// returned unchanged.
pub open spec fn integrate(p: PointMassView, dt: int) -> PointMassView {
    if p.locked {
        p
    } else {
        let velocity = v_add(p.velocity, v_scale(v_div(p.net_force, p.mass), dt));
        PointMassView {
            velocity,
            position: v_add(p.position, v_scale(velocity, dt)),
            net_force: Point { x: 0, y: 0 },
            ..p
        }
    }
}

impl PointMass {
    /// A particle at rest at `position`.
    pub fn new(position: Vec2, mass: Fixed, locked: bool) -> (r: PointMass)
        ensures
            r@ == (PointMassView {
                locked,
                mass: mass@,
                diameter: diameter_of(mass@),
                position: position@,
                velocity: Point { x: 0, y: 0 },
                net_force: Point { x: 0, y: 0 },
            }),
    {
        PointMass {
            locked,
            mass,
            diameter: Fixed::from_int(2).mul(mass.div(Fixed::from_raw(PI_RAW)).sqrt()),
            position,
            velocity: Vec2::zero(),
            net_force: Vec2::zero(),
        }
    }

    /// Advances the particle by one step of length `delta_time`.
    ///
    /// A locked particle is left exactly as it was, whatever force it has
    /// accumulated.
    pub fn update(&mut self, delta_time: Fixed)
        ensures
            final(self)@ == integrate(old(self)@, delta_time@),
            old(self).locked ==> *final(self) == *old(self),
    {
        if self.locked {
            return ;
        }
        self.velocity = self.velocity.add(self.net_force.div(self.mass).scale(delta_time));
        self.position = self.position.add(self.velocity.scale(delta_time));
        self.net_force = Vec2::zero();
    }

    /// Adds `force` to the forces accumulated for the next step.
    pub fn apply_force(&mut self, force: Vec2)
        ensures
            final(self)@ == with_force(old(self)@, force@),
    {
        self.net_force = self.net_force.add(force);
    }

    /// Adds the weight that the acceleration `accel` gives this particle.
    ///
    /// Unlike [`PointMass::apply_force`] the argument is an acceleration: it
    /// is multiplied by the particle's mass before it is accumulated.
    pub fn apply_gravity(&mut self, accel: Vec2)
        ensures
            final(self)@ == with_gravity(old(self)@, accel@),
    {
        self.net_force = self.net_force.add(accel.scale(self.mass));
    }

    /// Twice the kinetic energy of the particle, without rounding.
    pub fn energy(&self) -> (r: i128)
        ensures
            r == energy(self@),
            -2_000_000_000_000_000_000_000_000_000 <= r <= 2_000_000_000_000_000_000_000_000_000,
    {
        energy_of(self.mass, self.velocity)
    }
}

/// Twice the kinetic energy of a point mass: its mass times its squared
/// speed, in raw units.
pub open spec fn energy(p: PointMassView) -> int {
    p.mass * norm2(p.velocity)
}

/// Twice the kinetic energy of the mass `mass` at the velocity `velocity`,
/// without rounding.
pub fn energy_of(mass: Fixed, velocity: Vec2) -> (r: i128)
    ensures
        r == mass@ * norm2(velocity@),
        -2_000_000_000_000_000_000_000_000_000 <= r <= 2_000_000_000_000_000_000_000_000_000,
{
    let m: i128 = mass.raw() as i128;
    let speed2: i128 = velocity.norm2_exact() as i128;
    assert(-2_000_000_000_000_000_000_000_000_000 <= m * speed2
        <= 2_000_000_000_000_000_000_000_000_000) by (nonlinear_arith)
        requires
            -1_000_000_000 <= m <= 1_000_000_000,
            0 <= speed2 <= 2_000_000_000_000_000_000,
    ;
    m * speed2
}

/// The mathematical model of a [`Spring`].
pub struct SpringView {
    pub strength: int,
    pub length: int,
    pub damping: int,
    pub a: int,
    pub b: int,
}

/// A damped Hookean spring between the particles with indices `a` and `b` of
/// the shape that owns it.
#[derive(Clone, Copy, Debug, PartialEq, Eq, Structural)]
pub struct Spring {
    pub strength: Fixed,
    pub length: Fixed,
    pub damping: Fixed,
    pub a: usize,
    pub b: usize,
}

impl View for Spring {
    type V = SpringView;

    open spec fn view(&self) -> SpringView {
        SpringView {
            strength: self.strength@,
            length: self.length@,
            damping: self.damping@,
            a: self.a as int,
            b: self.b as int,
        }
    }
}

/// The force a spring exerts on its first end, given the two ends.
///
/// With `dir` the direction from the first end to the second and `dist`
/// their distance, it is `dir * (strength * (dist - length) + damping *
/// dot(dir, velocity_b - velocity_a))`, and zero when the ends coincide.
pub open spec fn spring_force(s: SpringView, a: PointMassView, b: PointMassView) -> Point {
    let delta = v_sub(b.position, a.position);
    let dist = v_length(delta);
    if dist == 0 {
        Point { x: 0, y: 0 }
    } else {
        let dir = v_normalize(delta);
        let damping_force = fx_mul(v_dot(dir, v_sub(b.velocity, a.velocity)), s.damping);
        let force = fx_add(fx_mul(s.strength, fx_sub(dist, s.length)), damping_force);
        v_scale(dir, force)
    }
}

impl Spring {
    /// A spring with the given coefficients, rest length and end indices.
    pub fn new(strength: Fixed, length: Fixed, damping: Fixed, a: usize, b: usize) -> (r: Spring)
        ensures
            r == (Spring { strength, length, damping, a, b }),
    {
        Spring { strength, length, damping, a, b }
    }

    /// The force on `point_a`; `point_b` receives the opposite force.
    pub fn calculate_force(&self, point_a: &PointMass, point_b: &PointMass) -> (r: Vec2)
        ensures
            r@ == spring_force(self@, point_a@, point_b@),
    {
        let delta = point_b.position.sub(point_a.position);
        let dist = delta.length();
        if dist.is_zero() {
            return Vec2::zero();
        }
        let dir = delta.normalize();
        let vel_diff = point_b.velocity.sub(point_a.velocity);
        let damping_force = dir.dot(vel_diff).mul(self.damping);
        let force = self.strength.mul(dist.sub(self.length)).add(damping_force);
        dir.scale(force)
    }

    /// A shade for showing how far the spring is from its rest length: 255
    /// at rest, falling with the strain, and 0 from a strain of 100 on.
    pub fn stretch_shade(&self, point_a: &PointMass, point_b: &PointMass) -> (r: u8)
        ensures
            r == stretch_shade_of(self@, point_a@, point_b@),
    {
        let hundred = Fixed::from_int(100);
        let strain = point_b.position.sub(point_a.position).length().sub(self.length).abs();
        let slack = inverse_lerp_f32(strain, hundred, Fixed::zero());
        let scaled = slack.max(Fixed::from_int(-1)).mul(Fixed::from_int(255)).raw();
        if scaled < 0 {
            0
        } else if scaled / 1000 > 255 {
            255
        } else {
            (scaled / 1000) as u8
        }
    }
}

/// The shade of a spring between `a` and `b`: with `strain` the distance of
/// its length from its rest length, the whole part of `255 * (1 - strain /
/// 100)`, kept within 0 and 255.
pub open spec fn stretch_shade_of(s: SpringView, a: PointMassView, b: PointMassView) -> int {
    let strain = magnitude(fx_sub(v_length(v_sub(b.position, a.position)), s.length));
    let slack = fx_div(fx_sub(strain, 100 * SCALE), fx_sub(0, 100 * SCALE));
    let level = fx_mul(
        if slack >= -SCALE {
            slack
        } else {
            -(SCALE as int)
        },
        255 * SCALE,
    ) / (SCALE as int);
    if level < 0 {
        0
    } else if level > 255 {
        255
    } else {
        level
    }
}

/// Forces superpose: as long as the accumulator does not saturate, two
/// forces add up to the same total whichever is applied first.
pub proof fn lemma_forces_commute(p: PointMassView, f: Point, g: Point)
    requires
        in_range(p.net_force.x + f.x) && in_range(p.net_force.y + f.y),
        in_range(p.net_force.x + g.x) && in_range(p.net_force.y + g.y),
        in_range(p.net_force.x + f.x + g.x) && in_range(p.net_force.y + f.y + g.y),
    ensures
        with_force(with_force(p, f), g) == with_force(with_force(p, g), f),
        with_force(with_force(p, f), g).net_force == (Point {
            x: p.net_force.x + f.x + g.x,
            y: p.net_force.y + f.y + g.y,
        }),
{
}

/// A spring pulls its two ends with opposite forces: seen from the second
/// end, the force is the opposite of the force seen from the first.
pub proof fn lemma_spring_force_is_opposite(s: SpringView, a: PointMassView, b: PointMassView)
    ensures
        spring_force(s, b, a) == v_neg(spring_force(s, a, b)),
{
    let delta = v_sub(b.position, a.position);
    let back = v_sub(a.position, b.position);
    assert(back == v_neg(delta));
    assert(norm2(back) == norm2(delta)) by (nonlinear_arith)
        requires
            back.x == -delta.x,
            back.y == -delta.y,
            norm2(back) == back.x * back.x + back.y * back.y,
            norm2(delta) == delta.x * delta.x + delta.y * delta.y,
    ;
    let dir = v_normalize(delta);
    let dir_back = v_normalize(back);
    lemma_normalize_neg(delta);
    assert(dir_back == v_neg(dir));
    let slide = v_sub(b.velocity, a.velocity);
    let slide_back = v_sub(a.velocity, b.velocity);
    assert(slide_back == v_neg(slide));
    assert(dot_exact(dir_back, slide_back) == dot_exact(dir, slide)) by (nonlinear_arith)
        requires
            dir_back.x == -dir.x,
            dir_back.y == -dir.y,
            slide_back.x == -slide.x,
            slide_back.y == -slide.y,
            dot_exact(dir_back, slide_back) == dir_back.x * slide_back.x + dir_back.y
                * slide_back.y,
            dot_exact(dir, slide) == dir.x * slide.x + dir.y * slide.y,
    ;
    let damping_force = fx_mul(v_dot(dir, slide), s.damping);
    let force = fx_add(fx_mul(s.strength, fx_sub(v_length(delta), s.length)), damping_force);
    assert(dir_back.x * force == -(dir.x * force) && dir_back.y * force == -(dir.y * force))
        by (nonlinear_arith)
        requires
            dir_back.x == -dir.x,
            dir_back.y == -dir.y,
    ;
    lemma_div_trunc_neg(dir.x * force, SCALE as int);
    lemma_div_trunc_neg(dir.y * force, SCALE as int);
}

} // verus!
