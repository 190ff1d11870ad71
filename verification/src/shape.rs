//! A soft body: a closed ring of point masses held together by structural
//! springs and pulled back to its rest shape by a frame of anchors.
use crate::components::{diameter_of, PointMass, PointMassView, Spring, SpringView};
use crate::config::{Config, ConfigView};
use crate::dynamics::{
    advance_all, advance_points, anchor_all, apply_drag, apply_frame_springs, apply_springs,
    best_fit_rotation, drag_all, fit_rotation, framed, lemma_framed_len, lemma_sprung_len,
    outline_of, place_anchors, point_views, positions, spring_views, springs_in_bounds, sprung,
};
use crate::fixed::{Fixed, SCALE};
use crate::geometry::{
    bounding_box_of, bounds_max, bounds_min, centroid, centroid_of, is_bounding_box,
    lemma_bounds_are_bounding_box, points_of,
};
use crate::vector::{option_view, v_add, v_distance, v_div, v_scale, v_sub, Point, Vec2};
use vstd::prelude::*;

verus! {

/// Spring `k` of the ring of springs that joins every point to the one
/// `spacing` places before it. The first `spacing` springs close the ring:
/// spring `k` joins point `n - 1 - k` to point `spacing - 1 - k`. Every
/// later spring `k` joins point `k` to point `k - spacing`. The rest length
/// is the distance between the two points.
pub open spec fn ring_spring(
    points: Seq<PointMassView>,
    spacing: int,
    strength: int,
    damping: int,
    k: int,
) -> SpringView {
    if k < spacing {
        let a = points.len() - 1 - k;
        let b = spacing - 1 - k;
        SpringView {
            strength,
            length: v_distance(points[a].position, points[b].position),
            damping,
            a,
            b,
        }
    } else {
        SpringView {
            strength,
            length: v_distance(points[k - spacing].position, points[k].position),
            damping,
            a: k,
            b: k - spacing,
        }
    }
}

/// The ring of springs with the given spacing: one spring per point.
pub open spec fn ring_springs(
    points: Seq<PointMassView>,
    spacing: int,
    strength: int,
    damping: int,
) -> Seq<SpringView> {
    Seq::new(points.len(), |k: int| ring_spring(points, spacing, strength, damping, k))
}

/// Appends to `springs` the ring of springs that joins every point to the
/// one `spacing` places before it, with coefficients `values` (stiffness,
/// damping).
pub fn add_springs(
    springs: &mut Vec<Spring>,
    spacing: usize,
    values: (Fixed, Fixed),
    points: &Vec<PointMass>,
)
    requires
        1 <= spacing <= points@.len(),
    ensures
        spring_views(final(springs)@) == spring_views(old(springs)@) + ring_springs(
            point_views(points@),
            spacing as int,
            values.0@,
            values.1@,
        ),
{
    let np = points.len();
    let ghost before = spring_views(springs@);
    let ghost views = point_views(points@);
    let ghost ring = ring_springs(views, spacing as int, values.0@, values.1@);
    assert(spring_views(springs@) =~= before + ring.take(0));
    let mut k: usize = 0;
    while k < spacing
        invariant
            k <= spacing <= np,
            np == points@.len(),
            views == point_views(points@),
            ring == ring_springs(views, spacing as int, values.0@, values.1@),
            spring_views(springs@) == before + ring.take(k as int),
        decreases spacing - k,
    {
        let a = np - 1 - k;
        let b = spacing - 1 - k;
        let spring = Spring::new(
            values.0,
            points[a].position.distance(points[b].position),
            values.1,
            a,
            b,
        );
        let ghost earlier = springs@;
        springs.push(spring);
        proof {
            assert(spring@ == ring[k as int]);
            assert(spring_views(springs@) =~= spring_views(earlier).push(spring@));
            assert(ring.take(k + 1) =~= ring.take(k as int).push(ring[k as int]));
            assert(before + ring.take(k + 1) =~= (before + ring.take(k as int)).push(
                ring[k as int],
            ));
        }
        k += 1;
    }
    while k < np
        invariant
            1 <= spacing <= k <= np,
            np == points@.len(),
            views == point_views(points@),
            ring == ring_springs(views, spacing as int, values.0@, values.1@),
            spring_views(springs@) == before + ring.take(k as int),
        decreases np - k,
    {
        let spring = Spring::new(
            values.0,
            points[k - spacing].position.distance(points[k].position),
            values.1,
            k,
            k - spacing,
        );
        let ghost earlier = springs@;
        springs.push(spring);
        proof {
            assert(spring@ == ring[k as int]);
            assert(spring_views(springs@) =~= spring_views(earlier).push(spring@));
            assert(ring.take(k + 1) =~= ring.take(k as int).push(ring[k as int]));
            assert(before + ring.take(k + 1) =~= (before + ring.take(k as int)).push(
                ring[k as int],
            ));
        }
        k += 1;
    }
    assert(ring.take(np as int) =~= ring);
}

/// The mathematical model of a [`Shape`].
pub struct ShapeView {
    /// The two corners of the bounding box: minimum, then maximum.
    pub bounding_box: (Point, Point),
    pub lock_frame: bool,
    /// The centroid.
    pub position: Point,
    /// The rotation from the rest pose, as its cosine and sine.
    pub rotation: Point,
    /// The rest offset of every point from the centroid.
    pub frame: Seq<Point>,
    pub points: Seq<PointMassView>,
    /// The frame anchors, one per point.
    pub anchors: Seq<PointMassView>,
    pub springs: Seq<SpringView>,
    pub frame_springs: Seq<SpringView>,
    pub config: ConfigView,
}

impl ShapeView {
    /// The number of boundary points.
    pub open spec fn len(self) -> int {
        self.points.len() as int
    }

    /// What holds of every shape: it has at least three points, as many
    /// frame offsets, anchors and frame springs as points, and every spring
    /// joins two of its points.
    pub open spec fn wf(self) -> bool {
        &&& self.points.len() >= 3
        &&& self.frame.len() == self.points.len()
        &&& self.anchors.len() == self.points.len()
        &&& self.frame_springs.len() == self.points.len()
        &&& springs_in_bounds(self.springs, self.len())
        &&& springs_in_bounds(self.frame_springs, self.len())
    }
}

/// The rest offset of an input point: its offset from the centroid, scaled.
pub open spec fn frame_offset(p: Point, center: Point, scale: int) -> Point {
    v_scale(v_sub(p, center), scale)
}

/// The positions of the input pairs of a shape.
pub open spec fn input_positions(inputs: Seq<(Vec2, Fixed)>) -> Seq<Point> {
    Seq::new(inputs.len(), |i: int| inputs[i].0@)
}

/// The point mass that a shape starts with for input `i`: at rest, unlocked,
/// at its scaled offset from the centroid.
pub open spec fn initial_point(inputs: Seq<(Vec2, Fixed)>, scale: int, i: int) -> PointMassView {
    let center = centroid(input_positions(inputs));
    PointMassView {
        locked: false,
        mass: inputs[i].1@,
        diameter: diameter_of(inputs[i].1@),
        position: v_add(frame_offset(inputs[i].0@, center, scale), center),
        velocity: Point { x: 0, y: 0 },
        net_force: Point { x: 0, y: 0 },
    }
}

/// The massless anchor that a shape starts with for input `i`: where the
/// point itself starts.
pub open spec fn initial_anchor(inputs: Seq<(Vec2, Fixed)>, scale: int, i: int) -> PointMassView {
    PointMassView { mass: 0, diameter: diameter_of(0), ..initial_point(inputs, scale, i) }
}

/// The frame spring of point `i`: from the point to its own anchor, with
/// rest length zero.
pub open spec fn frame_spring(strength: int, damping: int, i: int) -> SpringView {
    SpringView { strength, length: 0, damping, a: i, b: i }
}

/// The shape that [`Shape::new`] builds.
///
/// The points are the inputs scaled about their centroid. The structural
/// springs are the rings of spacing 1 and 2, the frame springs join every
/// point to its own anchor, and the bounding box is that of the inputs as
/// given.
pub open spec fn new_shape(
    inputs: Seq<(Vec2, Fixed)>,
    body_strength: (int, int),
    frame_strength: (int, int),
    lock_frame: bool,
    scale: int,
    config: ConfigView,
) -> ShapeView {
    let given = input_positions(inputs);
    let center = centroid(given);
    let points = Seq::new(inputs.len(), |i: int| initial_point(inputs, scale, i));
    ShapeView {
        bounding_box: (bounds_min(given), bounds_max(given)),
        lock_frame,
        position: center,
        rotation: Point { x: SCALE as int, y: 0 },
        frame: Seq::new(inputs.len(), |i: int| frame_offset(inputs[i].0@, center, scale)),
        points,
        anchors: Seq::new(inputs.len(), |i: int| initial_anchor(inputs, scale, i)),
        springs: ring_springs(points, 1, body_strength.0, body_strength.1) + ring_springs(
            points,
            2,
            body_strength.0,
            body_strength.1,
        ),
        frame_springs: Seq::new(
            inputs.len(),
            |i: int| frame_spring(frame_strength.0, frame_strength.1, i),
        ),
        config,
    }
}

/// The points after a drag target has been applied: on a shape whose frame
/// is not locked the last point is moved to the target and stopped.
pub open spec fn grabbed(s: ShapeView, target: Option<Point>) -> Seq<PointMassView> {
    match target {
        Some(at) => if s.lock_frame {
            s.points
        } else {
            s.points.update(
                s.len() - 1,
                PointMassView {
                    position: at,
                    velocity: Point { x: 0, y: 0 },
                    ..s.points[s.len() - 1]
                },
            )
        },
        None => s.points,
    }
}

/// The shape after one step of length `dt`, in this order:
///
/// 1. the drag target, if any, takes hold of the last point;
/// 2. every unlocked point takes up gravity and is integrated;
/// 3. the structural springs add their forces to the accumulators, to take
///    effect at the next step's integration;
/// 4. every moving unlocked point takes up its drag;
/// 5. the bounding box becomes that of the points;
/// 6. unless the frame is locked, the centroid and the best-fit rotation
///    are taken anew and the anchors are moved to their rest offsets from
///    the centroid, turned by the rotation;
/// 7. the frame springs pull every point toward its anchor.
pub open spec fn step(s: ShapeView, dt: int, target: Option<Point>) -> ShapeView {
    let moved = advance_all(grabbed(s, target), s.config.gravity, dt);
    let pulled = sprung(moved, s.springs, dt, s.springs.len() as int);
    let slowed = drag_all(pulled, s.config.drag_coefficient, dt);
    let outline = positions(slowed);
    let position = if s.lock_frame {
        s.position
    } else {
        centroid(outline)
    };
    let rotation = if s.lock_frame {
        s.rotation
    } else {
        fit_rotation(outline, position, s.frame)
    };
    let anchors = if s.lock_frame {
        s.anchors
    } else {
        anchor_all(s.anchors, s.frame, rotation, position)
    };
    ShapeView {
        bounding_box: (bounds_min(outline), bounds_max(outline)),
        position,
        rotation,
        anchors,
        points: framed(slowed, anchors, s.frame_springs, dt, s.frame_springs.len() as int),
        ..s
    }
}

/// The points with every velocity replaced by `velocity`.
pub open spec fn with_velocity(points: Seq<PointMassView>, velocity: Point) -> Seq<PointMassView> {
    Seq::new(points.len(), |i: int| PointMassView { velocity, ..points[i] })
}

/// The points after an impulse: the velocity of each grows by the impulse
/// divided by the point's mass.
pub open spec fn with_impulse(points: Seq<PointMassView>, impulse: Point) -> Seq<PointMassView> {
    Seq::new(
        points.len(),
        |i: int|
            PointMassView {
                velocity: v_add(points[i].velocity, v_div(impulse, points[i].mass)),
                ..points[i]
            },
    )
}

/// The positions of the inputs of a shape, in order.
fn positions_of_inputs(inputs: &Vec<(Vec2, Fixed)>) -> (r: Vec<Vec2>)
    ensures
        points_of(r@) == input_positions(inputs@),
{
    let n = inputs.len();
    let mut given: Vec<Vec2> = Vec::new();
    let mut i: usize = 0;
    while i < n
        invariant
            i <= n,
            n == inputs@.len(),
            given@.len() == i,
            forall|j: int| 0 <= j < i ==> (#[trigger] given@[j]) == inputs@[j].0,
        decreases n - i,
    {
        given.push(inputs[i].0);
        i += 1;
    }
    assert(points_of(given@) =~= input_positions(inputs@));
    given
}

/// A soft body.
///
/// The boundary points are kept in boundary order. Every point has a rest
/// offset from the centroid and an anchor; together these form the frame
/// that gives the body its shape memory. A shape with a locked frame is
/// static: it is never recentred, turned or dragged, though collisions may
/// still push its points.
pub struct Shape {
    bounding_box: (Vec2, Vec2),
    lock_frame: bool,
    position: Vec2,
    rotation: Vec2,
    frame: Vec<Vec2>,
    points: Vec<PointMass>,
    frame_points: Vec<PointMass>,
    np: usize,
    springs: Vec<Spring>,
    frame_springs: Vec<Spring>,
    config: Config,
}

impl View for Shape {
    type V = ShapeView;

    closed spec fn view(&self) -> ShapeView {
        ShapeView {
            bounding_box: (self.bounding_box.0@, self.bounding_box.1@),
            lock_frame: self.lock_frame,
            position: self.position@,
            rotation: self.rotation@,
            frame: points_of(self.frame@),
            points: point_views(self.points@),
            anchors: point_views(self.frame_points@),
            springs: spring_views(self.springs@),
            frame_springs: spring_views(self.frame_springs@),
            config: self.config@,
        }
    }
}

impl Shape {
    /// The shape is consistent: what [`ShapeView::wf`] says holds of it.
    /// Every shape that [`Shape::new`] returns is valid, and every
    /// operation keeps it so.
    pub closed spec fn valid(&self) -> bool {
        self.np == self.points@.len() && self@.wf()
    }


    /// Builds a shape from its rest polygon.
    ///
    /// `input_points` lists the boundary points in order, each with its
    /// mass. The polygon is scaled by `scale` about its centroid.
    /// `body_strength` and `frame_strength` give the stiffness and damping
    /// of the structural and of the frame springs. The bounding box starts
    /// as that of the points as given.
    pub fn new(
        input_points: Vec<(Vec2, Fixed)>,
        body_strength: (Fixed, Fixed),
        frame_strength: (Fixed, Fixed),
        lock_frame: bool,
        scale: Fixed,
        config: Config,
    ) -> (r: Shape)
        requires
            input_points@.len() >= 3,
        ensures
            r@ == new_shape(
                input_points@,
                (body_strength.0@, body_strength.1@),
                (frame_strength.0@, frame_strength.1@),
                lock_frame,
                scale@,
                config@,
            ),
            r.valid(),
            is_bounding_box(
                input_positions(input_points@),
                r@.bounding_box.0,
                r@.bounding_box.1,
            ),
    {
        let np = input_points.len();
        let ghost inputs = input_points@;
        let ghost model = new_shape(
            inputs,
            (body_strength.0@, body_strength.1@),
            (frame_strength.0@, frame_strength.1@),
            lock_frame,
            scale@,
            config@,
        );
        let given = positions_of_inputs(&input_points);
        let bounding_box = bounding_box_of(&given);
        let position = centroid_of(&given);
        let mut points: Vec<PointMass> = Vec::new();
        let mut frame_points: Vec<PointMass> = Vec::new();
        let mut frame: Vec<Vec2> = Vec::new();
        let mut frame_springs: Vec<Spring> = Vec::new();
        let mut i: usize = 0;
        while i < np
            invariant
                i <= np,
                np == input_points@.len(),
                inputs == input_points@,
                position@ == centroid(input_positions(inputs)),
                points@.len() == i,
                frame_points@.len() == i,
                frame@.len() == i,
                frame_springs@.len() == i,
                forall|j: int|
                    0 <= j < i ==> (#[trigger] points@[j])@ == initial_point(inputs, scale@, j),
                forall|j: int|
                    0 <= j < i ==> (#[trigger] frame_points@[j])@ == initial_anchor(
                        inputs,
                        scale@,
                        j,
                    ),
                forall|j: int|
                    0 <= j < i ==> (#[trigger] frame@[j])@ == frame_offset(
                        inputs[j].0@,
                        position@,
                        scale@,
                    ),
                forall|j: int|
                    0 <= j < i ==> (#[trigger] frame_springs@[j])@ == frame_spring(
                        frame_strength.0@,
                        frame_strength.1@,
                        j,
                    ),
            decreases np - i,
        {
            let offset = input_points[i].0.sub(position).scale(scale);
            let at = offset.add(position);
            points.push(PointMass::new(at, input_points[i].1, false));
            frame_points.push(PointMass::new(at, Fixed::zero(), false));
            frame.push(offset);
            frame_springs.push(
                Spring::new(frame_strength.0, Fixed::zero(), frame_strength.1, i, i),
            );
            i += 1;
        }
        let mut springs: Vec<Spring> = Vec::new();
        add_springs(&mut springs, 1, body_strength, &points);
        add_springs(&mut springs, 2, body_strength, &points);
        let rotation = Vec2 { x: Fixed::one(), y: Fixed::zero() };
        proof {
            assert(point_views(points@) =~= model.points);
            assert(point_views(frame_points@) =~= model.anchors);
            assert(points_of(frame@) =~= model.frame);
            assert(spring_views(frame_springs@) =~= model.frame_springs);
            assert(spring_views(springs@) =~= model.springs);
            lemma_bounds_are_bounding_box(input_positions(inputs));
        }
        Shape {
            bounding_box,
            lock_frame,
            position,
            rotation,
            frame,
            points,
            frame_points,
            np,
            springs,
            frame_springs,
            config,
        }
    }

    /// Advances the shape by one step of length `delta_time`.
    ///
    /// `drag_target`, when given, is where the last point is held during
    /// this step; a shape with a locked frame ignores it.
    pub fn update(&mut self, delta_time: Fixed, drag_target: Option<Vec2>)
        requires
            old(self).valid(),
        ensures
            final(self)@ == step(old(self)@, delta_time@, option_view(drag_target)),
            final(self).valid(),
    {
        let ghost start = self@;
        if !self.lock_frame {
            if let Some(target) = drag_target {
                let mut held = self.points[self.np - 1];
                held.position = target;
                held.velocity = Vec2::zero();
                self.points[self.np - 1] = held;
            }
        }
        assert(point_views(self.points@) =~= grabbed(start, option_view(drag_target)));
        advance_points(&mut self.points, self.config.gravity, delta_time);
        proof {
            lemma_sprung_len(
                point_views(self.points@),
                start.springs,
                delta_time@,
                start.springs.len() as int,
            );
        }
        apply_springs(&mut self.points, &self.springs, delta_time);
        apply_drag(&mut self.points, self.config.drag_coefficient, delta_time);
        let outline = outline_of(&self.points);
        self.bounding_box = bounding_box_of(&outline);
        if !self.lock_frame {
            self.position = centroid_of(&outline);
            self.rotation = best_fit_rotation(&outline, self.position, &self.frame);
            place_anchors(&mut self.frame_points, &self.frame, self.rotation, self.position);
        }
        assert(point_views(self.frame_points@).len() == start.anchors.len());
        proof {
            lemma_framed_len(
                point_views(self.points@),
                point_views(self.frame_points@),
                start.frame_springs,
                delta_time@,
                start.frame_springs.len() as int,
            );
        }
        apply_frame_springs(&mut self.points, &self.frame_points, &self.frame_springs, delta_time);
    }

    /// The number of boundary points.
    pub fn len(&self) -> (r: usize)
        requires
            self.valid(),
        ensures
            r == self@.len(),
            r >= 3,
            self@.wf(),
    {
        self.np
    }

    /// The boundary points, in order.
    pub fn points(&self) -> (r: &Vec<PointMass>)
        ensures
            point_views(r@) == self@.points,
    {
        &self.points
    }

    /// The frame anchors, one per boundary point.
    pub fn anchors(&self) -> (r: &Vec<PointMass>)
        ensures
            point_views(r@) == self@.anchors,
    {
        &self.frame_points
    }

    /// The structural springs.
    pub fn springs(&self) -> (r: &Vec<Spring>)
        ensures
            spring_views(r@) == self@.springs,
    {
        &self.springs
    }

    /// The frame springs, one per boundary point.
    pub fn frame_springs(&self) -> (r: &Vec<Spring>)
        ensures
            spring_views(r@) == self@.frame_springs,
    {
        &self.frame_springs
    }

    /// Boundary point `i`.
    pub fn point(&self, i: usize) -> (r: PointMass)
        requires
            i < self@.len(),
        ensures
            r@ == self@.points[i as int],
    {
        self.points[i]
    }

    /// Replaces boundary point `i`.
    pub fn set_point(&mut self, i: usize, point: PointMass)
        requires
            i < old(self)@.len(),
        ensures
            final(self)@ == (ShapeView {
                points: old(self)@.points.update(i as int, point@),
                ..old(self)@
            }),
            old(self).valid() ==> final(self).valid(),
    {
        let ghost before = self@;
        self.points[i] = point;
        assert(point_views(self.points@) =~= before.points.update(i as int, point@));
    }

    /// The current positions of the boundary points, in order.
    pub fn outline(&self) -> (r: Vec<Vec2>)
        ensures
            points_of(r@) == positions(self@.points),
    {
        outline_of(&self.points)
    }

    /// The corners of the bounding box as of the last step: minimum, then
    /// maximum.
    pub fn bounding_box(&self) -> (r: (Vec2, Vec2))
        ensures
            (r.0@, r.1@) == self@.bounding_box,
    {
        self.bounding_box
    }

    /// The centroid as of the last step.
    pub fn position(&self) -> (r: Vec2)
        ensures
            r@ == self@.position,
    {
        self.position
    }

    /// The rotation from the rest pose as of the last step, as its cosine
    /// and sine.
    pub fn rotation(&self) -> (r: Vec2)
        ensures
            r@ == self@.rotation,
    {
        self.rotation
    }

    /// Whether the frame is locked.
    pub fn lock_frame(&self) -> (r: bool)
        ensures
            r == self@.lock_frame,
    {
        self.lock_frame
    }

    /// The coefficients the shape was built with.
    pub fn config(&self) -> (r: Config)
        ensures
            r@ == self@.config,
    {
        self.config
    }

    /// Gives every point the velocity `velocity`.
    pub fn set_velocity(&mut self, velocity: Vec2)
        requires
            old(self).valid(),
        ensures
            final(self)@ == (ShapeView {
                points: with_velocity(old(self)@.points, velocity@),
                ..old(self)@
            }),
            final(self).valid(),
    {
        let ghost before = self@;
        let n = self.np;
        let mut i: usize = 0;
        while i < n
            invariant
                i <= n,
                n == self.points@.len(),
                n == self.np,
                before.wf(),
                before.len() == n,
                self@ == (ShapeView { points: self@.points, ..before }),
                forall|j: int|
                    0 <= j < i ==> (#[trigger] self@.points[j]) == (PointMassView {
                        velocity: velocity@,
                        ..before.points[j]
                    }),
                forall|j: int| i <= j < n ==> (#[trigger] self@.points[j]) == before.points[j],
            decreases n - i,
        {
            let ghost earlier = self@.points;
            assert(earlier[i as int] == before.points[i as int]);
            let mut p = self.points[i];
            p.velocity = velocity;
            self.points[i] = p;
            assert(self@.points =~= earlier.update(i as int, p@));
            i += 1;
        }
        assert(self@.points =~= with_velocity(before.points, velocity@));
    }

    /// Applies an instantaneous impulse to every point: the velocity of each
    /// grows by the impulse divided by the point's mass.
    pub fn apply_impulse(&mut self, impulse: Vec2)
        requires
            old(self).valid(),
        ensures
            final(self)@ == (ShapeView {
                points: with_impulse(old(self)@.points, impulse@),
                ..old(self)@
            }),
            final(self).valid(),
    {
        let ghost before = self@;
        let n = self.np;
        let mut i: usize = 0;
        while i < n
            invariant
                i <= n,
                n == self.points@.len(),
                n == self.np,
                before.wf(),
                before.len() == n,
                self@ == (ShapeView { points: self@.points, ..before }),
                forall|j: int|
                    0 <= j < i ==> (#[trigger] self@.points[j]) == (PointMassView {
                        velocity: v_add(
                            before.points[j].velocity,
                            v_div(impulse@, before.points[j].mass),
                        ),
                        ..before.points[j]
                    }),
                forall|j: int| i <= j < n ==> (#[trigger] self@.points[j]) == before.points[j],
            decreases n - i,
        {
            let ghost earlier = self@.points;
            assert(earlier[i as int] == before.points[i as int]);
            let mut p = self.points[i];
            p.velocity = p.velocity.add(impulse.div(p.mass));
            self.points[i] = p;
            assert(self@.points =~= earlier.update(i as int, p@));
            i += 1;
        }
        assert(self@.points =~= with_impulse(before.points, impulse@));
    }
}

} // verus!
