//! The order in which a ray crosses cell boundaries, in exact arithmetic.
//!
//! A ray starts at a point inside a cell and travels along a direction given
//! by three integers. Along each axis it meets cell boundaries at regular
//! distances; the time at which it meets the next one is that distance
//! divided by its speed along the axis. Times are never computed: two of them
//! are compared by multiplying across, so no rounding takes place and equal
//! times are recognised as equal.

use vstd::prelude::*;
use crate::ray::{
    crossings_on, lemma_crossings_on_prefix, next_axis, spec_next_axis, spec_step_of, step_into,
    step_of, Axis, Int3, Ray, RayView, RaycastResult,
};
use crate::world::{Grid, World};

verus! {

/// Units of length in the side of a cell.
pub const CELL_UNITS: u128 = 65536;

/// The point a ray starts from: the cell that holds it, and how far into the
/// cell it lies along each axis, in units of which a cell's side has 65536.
#[derive(Clone, Copy, PartialEq, Eq, Structural, Debug)]
pub struct Origin {
    pub cell: Int3,
    pub inset_x: u16,
    pub inset_y: u16,
    pub inset_z: u16,
}

impl Origin {
    /// How far into its cell the point lies along `axis`.
    pub open spec fn inset(self, axis: Axis) -> int {
        match axis {
            Axis::X => self.inset_x as int,
            Axis::Y => self.inset_y as int,
            Axis::Z => self.inset_z as int,
        }
    }
}

/// The component of a direction along `axis`.
pub open spec fn component(direction: Int3, axis: Axis) -> int {
    match axis {
        Axis::X => direction.x as int,
        Axis::Y => direction.y as int,
        Axis::Z => direction.z as int,
    }
}

/// Where a ray stands along one axis: the distance from its origin to the
/// next cell boundary on that axis, and its speed towards it. A speed of zero
/// means that the boundary is never reached.
pub struct Reach {
    pub distance: int,
    pub speed: int,
}

impl Reach {
    /// Whether this boundary is reached strictly before `other`: the time to
    /// a boundary is its distance over its speed.
    pub open spec fn before(self, other: Reach) -> bool {
        self.speed != 0 && (other.speed == 0 || self.distance * other.speed < other.distance
            * self.speed)
    }
}

/// The distance from the origin to the first boundary along one axis: back
/// to the cell's near side when travelling against the axis, on to its far
/// side otherwise.
pub open spec fn first_gap(inset: int, component: int) -> int {
    if component < 0 {
        inset
    } else {
        CELL_UNITS - inset
    }
}

/// The speed along one axis: the size of the direction's component.
pub open spec fn speed_of(component: int) -> int {
    if component < 0 {
        -component
    } else {
        component
    }
}

/// Where the ray stands along `axis` once it has made the given crossings.
pub open spec fn reach_of(origin: Origin, direction: Int3, crossings: Seq<Axis>, axis: Axis) -> Reach {
    Reach {
        distance: first_gap(origin.inset(axis), component(direction, axis)) + CELL_UNITS
            * crossings_on(crossings, axis, crossings.len()),
        speed: speed_of(component(direction, axis)),
    }
}

/// The axis of the boundary that the ray crosses next, once it has made the
/// given crossings.
pub open spec fn crossing_after(origin: Origin, direction: Int3, crossings: Seq<Axis>) -> Axis {
    let x = reach_of(origin, direction, crossings, Axis::X);
    let y = reach_of(origin, direction, crossings, Axis::Y);
    let z = reach_of(origin, direction, crossings, Axis::Z);
    spec_next_axis(y.before(x), y.before(z), x.before(z))
}

/// The axes of the first `n` boundaries that the ray crosses, in order.
pub open spec fn crossing_order(origin: Origin, direction: Int3, n: nat) -> Seq<Axis>
    decreases n,
{
    if n == 0 {
        Seq::empty()
    } else {
        let earlier = crossing_order(origin, direction, (n - 1) as nat);
        earlier.push(crossing_after(origin, direction, earlier))
    }
}

/// The ray from `origin` along `direction`, as far as its first `n`
/// crossings.
pub open spec fn ray_through(origin: Origin, direction: Int3, n: nat) -> RayView {
    RayView {
        start: origin.cell.ints(),
        step: (
            spec_step_of(direction.x < 0),
            spec_step_of(direction.y < 0),
            spec_step_of(direction.z < 0),
        ),
        crossings: crossing_order(origin, direction, n),
    }
}

/// An order of crossings has as many entries as were asked for, and a longer
/// order begins with every shorter one.
pub proof fn lemma_crossing_order_grows(origin: Origin, direction: Int3, m: nat, n: nat)
    requires
        m <= n,
    ensures
        crossing_order(origin, direction, n).len() == n,
        crossing_order(origin, direction, m) == crossing_order(origin, direction, n).take(m as int),
    decreases n,
{
    if n > 0 {
        lemma_crossing_order_grows(origin, direction, if m < n { m } else { (n - 1) as nat }, (n - 1) as nat);
        let earlier = crossing_order(origin, direction, (n - 1) as nat);
        let whole = crossing_order(origin, direction, n);
        if m < n {
            assert(earlier.take(m as int) =~= whole.take(m as int));
        } else {
            assert(whole.take(n as int) =~= whole);
        }
    } else {
        assert(crossing_order(origin, direction, 0).take(0) =~= crossing_order(origin, direction, 0));
    }
}

impl Reach {
    /// A distance and a speed that a ray can have: neither is negative.
    pub open spec fn wf(self) -> bool {
        self.distance >= 0 && self.speed >= 0
    }

    /// A boundary reached strictly before a second, which in turn is not
    /// reached after a third, is reached strictly before the third.
    pub proof fn lemma_before_chain(self, second: Reach, third: Reach)
        requires
            self.wf(),
            second.wf(),
            third.wf(),
            self.before(second),
            !third.before(second),
        ensures
            self.before(third),
    {
        if third.speed != 0 {
            let ad = self.distance;
            let a = self.speed;
            let bd = second.distance;
            let b = second.speed;
            let cd = third.distance;
            let c = third.speed;
            assert(ad * c < cd * a) by (nonlinear_arith)
                requires
                    a > 0,
                    b > 0,
                    c > 0,
                    ad * b < bd * a,
                    cd * b >= bd * c,
            ;
        }
    }
}

/// Every distance to a next boundary is positive or zero, and every speed.
pub proof fn lemma_reach_wf(origin: Origin, direction: Int3, crossings: Seq<Axis>, axis: Axis)
    ensures
        reach_of(origin, direction, crossings, axis).wf(),
{
    let n = crossings_on(crossings, axis, crossings.len());
    assert(CELL_UNITS * n >= 0) by (nonlinear_arith)
        requires
            n >= 0,
    ;
}

/// The ray always crosses a boundary that it reaches first: no boundary on
/// another axis is reached strictly before the one it crosses.
pub proof fn lemma_crossing_is_nearest(
    origin: Origin,
    direction: Int3,
    crossings: Seq<Axis>,
    other: Axis,
)
    ensures
        !reach_of(origin, direction, crossings, other).before(
            reach_of(origin, direction, crossings, crossing_after(origin, direction, crossings)),
        ),
{
    let x = reach_of(origin, direction, crossings, Axis::X);
    let y = reach_of(origin, direction, crossings, Axis::Y);
    let z = reach_of(origin, direction, crossings, Axis::Z);
    lemma_reach_wf(origin, direction, crossings, Axis::X);
    lemma_reach_wf(origin, direction, crossings, Axis::Y);
    lemma_reach_wf(origin, direction, crossings, Axis::Z);
    match crossing_after(origin, direction, crossings) {
        Axis::Y => {},
        Axis::X => {
            if y.before(x) {
                // Then y comes before x, and x before z, so y before both.
                y.lemma_before_chain(x, z);
            }
        },
        Axis::Z => {
            if y.before(z) {
                // Then y comes before z, and z not after x, so y before both.
                y.lemma_before_chain(z, x);
            }
        },
    }
}

/// The length of the direction does not matter: a direction stretched by a
/// whole factor gives the same order of crossings.
pub proof fn lemma_crossing_order_scales(
    origin: Origin,
    direction: Int3,
    stretched: Int3,
    factor: int,
    n: nat,
)
    requires
        factor >= 1,
        stretched.x == factor * direction.x,
        stretched.y == factor * direction.y,
        stretched.z == factor * direction.z,
    ensures
        crossing_order(origin, stretched, n) == crossing_order(origin, direction, n),
        ray_through(origin, stretched, n) == ray_through(origin, direction, n),
    decreases n,
{
    lemma_stretch_keeps_sign(direction.x as int, factor);
    lemma_stretch_keeps_sign(direction.y as int, factor);
    lemma_stretch_keeps_sign(direction.z as int, factor);
    if n > 0 {
        lemma_crossing_order_scales(origin, direction, stretched, factor, (n - 1) as nat);
        let earlier = crossing_order(origin, direction, (n - 1) as nat);
        let x = reach_of(origin, direction, earlier, Axis::X);
        let y = reach_of(origin, direction, earlier, Axis::Y);
        let z = reach_of(origin, direction, earlier, Axis::Z);
        let sx = reach_of(origin, stretched, earlier, Axis::X);
        let sy = reach_of(origin, stretched, earlier, Axis::Y);
        let sz = reach_of(origin, stretched, earlier, Axis::Z);
        lemma_stretch_keeps_before(y, x, sy, sx, factor);
        lemma_stretch_keeps_before(y, z, sy, sz, factor);
        lemma_stretch_keeps_before(x, z, sx, sz, factor);
    }
}

/// Stretching a component by a whole factor keeps its sign and multiplies
/// its size.
proof fn lemma_stretch_keeps_sign(component: int, factor: int)
    requires
        factor >= 1,
    ensures
        (factor * component < 0) == (component < 0),
        speed_of(factor * component) == factor * speed_of(component),
        first_gap(0, factor * component) == first_gap(0, component),
{
    assert((factor * component < 0) == (component < 0)) by (nonlinear_arith)
        requires
            factor >= 1,
    ;
    assert(-(factor * component) == factor * (-component)) by (nonlinear_arith);
}

/// Multiplying both speeds by the same factor changes no comparison.
proof fn lemma_stretch_keeps_before(a: Reach, b: Reach, fast_a: Reach, fast_b: Reach, factor: int)
    requires
        factor >= 1,
        fast_a.distance == a.distance,
        fast_b.distance == b.distance,
        fast_a.speed == factor * a.speed,
        fast_b.speed == factor * b.speed,
    ensures
        fast_a.before(fast_b) == a.before(b),
{
    assert((fast_a.speed != 0) == (a.speed != 0) && (fast_b.speed != 0) == (b.speed != 0))
        by (nonlinear_arith)
        requires
            factor >= 1,
            fast_a.speed == factor * a.speed,
            fast_b.speed == factor * b.speed,
    ;
    assert((a.distance * (factor * b.speed) < b.distance * (factor * a.speed)) == (a.distance
        * b.speed < b.distance * a.speed)) by (nonlinear_arith)
        requires
            factor >= 1,
    ;
}

/// Whether the boundary at `distance`, approached at `speed`, is reached
/// strictly before the other one.
fn reaches_before(distance: u128, speed: u128, other_distance: u128, other_speed: u128) -> (sooner:
    bool)
    requires
        distance <= CELL_UNITS * 0x1_0000_0000_0000_0001,
        other_distance <= CELL_UNITS * 0x1_0000_0000_0000_0001,
        speed <= 0x8000_0000,
        other_speed <= 0x8000_0000,
    ensures
        sooner == (Reach { distance: distance as int, speed: speed as int }).before(
            Reach { distance: other_distance as int, speed: other_speed as int },
        ),
{
    assert(distance * other_speed <= CELL_UNITS * 0x1_0000_0000_0000_0001 * 0x8000_0000)
        by (nonlinear_arith)
        requires
            distance <= CELL_UNITS * 0x1_0000_0000_0000_0001,
            other_speed <= 0x8000_0000,
    ;
    assert(other_distance * speed <= CELL_UNITS * 0x1_0000_0000_0000_0001 * 0x8000_0000)
        by (nonlinear_arith)
        requires
            other_distance <= CELL_UNITS * 0x1_0000_0000_0000_0001,
            speed <= 0x8000_0000,
    ;
    speed != 0 && (other_speed == 0 || distance * other_speed < other_distance * speed)
}

/// The speed along one axis: the size of the direction's component.
fn speed(component: i32) -> (speed: u128)
    ensures
        speed == speed_of(component as int),
        speed <= 0x8000_0000,
{
    let wide = component as i64;
    if wide < 0 {
        (-wide) as u128
    } else {
        wide as u128
    }
}

/// The distance from the origin to the first boundary along one axis.
fn gap(inset: u16, component: i32) -> (gap: u128)
    ensures
        gap == first_gap(inset as int, component as int),
        gap <= CELL_UNITS,
{
    if component < 0 {
        inset as u128
    } else {
        CELL_UNITS - inset as u128
    }
}

/// The boundaries ahead of a ray: on each axis the distance from the origin
/// to the next one, and the speed at which the ray nears it.
struct Front {
    distance_x: u128,
    distance_y: u128,
    distance_z: u128,
    speed_x: u128,
    speed_y: u128,
    speed_z: u128,
}

impl Front {
    /// Whether these are the boundaries ahead of the ray from `origin` along
    /// `direction` once it has made the crossings `made`.
    spec fn ahead_of(self, origin: Origin, direction: Int3, made: Seq<Axis>) -> bool {
        &&& self.distance_x == reach_of(origin, direction, made, Axis::X).distance
        &&& self.distance_y == reach_of(origin, direction, made, Axis::Y).distance
        &&& self.distance_z == reach_of(origin, direction, made, Axis::Z).distance
        &&& self.speed_x == reach_of(origin, direction, made, Axis::X).speed
        &&& self.speed_y == reach_of(origin, direction, made, Axis::Y).speed
        &&& self.speed_z == reach_of(origin, direction, made, Axis::Z).speed
    }

    /// The boundaries ahead of a ray that has crossed none yet.
    fn new(origin: Origin, direction: Int3) -> (front: Front)
        ensures
            front.ahead_of(origin, direction, Seq::empty()),
    {
        Front {
            distance_x: gap(origin.inset_x, direction.x),
            distance_y: gap(origin.inset_y, direction.y),
            distance_z: gap(origin.inset_z, direction.z),
            speed_x: speed(direction.x),
            speed_y: speed(direction.y),
            speed_z: speed(direction.z),
        }
    }

    /// Crosses the boundary that the ray reaches first and says on which
    /// axis it lies; the boundary after it on that axis is now the one ahead.
    fn cross(&mut self, origin: Origin, direction: Int3, Ghost(made): Ghost<Seq<Axis>>) -> (axis:
        Axis)
        requires
            old(self).ahead_of(origin, direction, made),
            made.len() < usize::MAX,
        ensures
            axis == crossing_after(origin, direction, made),
            final(self).ahead_of(origin, direction, made.push(axis)),
    {
        proof {
            lemma_crossings_on_prefix(made, made, Axis::X, made.len());
            lemma_crossings_on_prefix(made, made, Axis::Y, made.len());
            lemma_crossings_on_prefix(made, made, Axis::Z, made.len());
            lemma_distance_bound(crossings_on(made, Axis::X, made.len()), made.len());
            lemma_distance_bound(crossings_on(made, Axis::Y, made.len()), made.len());
            lemma_distance_bound(crossings_on(made, Axis::Z, made.len()), made.len());
        }
        let axis = next_axis(
            reaches_before(self.distance_y, self.speed_y, self.distance_x, self.speed_x),
            reaches_before(self.distance_y, self.speed_y, self.distance_z, self.speed_z),
            reaches_before(self.distance_x, self.speed_x, self.distance_z, self.speed_z),
        );
        match axis {
            Axis::X => {
                self.distance_x = self.distance_x + CELL_UNITS;
            },
            Axis::Y => {
                self.distance_y = self.distance_y + CELL_UNITS;
            },
            Axis::Z => {
                self.distance_z = self.distance_z + CELL_UNITS;
            },
        }
        proof {
            let after = made.push(axis);
            lemma_crossings_on_prefix(made, after, Axis::X, made.len());
            lemma_crossings_on_prefix(made, after, Axis::Y, made.len());
            lemma_crossings_on_prefix(made, after, Axis::Z, made.len());
            let nx = crossings_on(made, Axis::X, made.len()) as int;
            let ny = crossings_on(made, Axis::Y, made.len()) as int;
            let nz = crossings_on(made, Axis::Z, made.len()) as int;
            assert(CELL_UNITS * (nx + 1) == CELL_UNITS * nx + CELL_UNITS) by (nonlinear_arith);
            assert(CELL_UNITS * (ny + 1) == CELL_UNITS * ny + CELL_UNITS) by (nonlinear_arith);
            assert(CELL_UNITS * (nz + 1) == CELL_UNITS * nz + CELL_UNITS) by (nonlinear_arith);
        }
        axis
    }
}

impl Ray {
    /// The ray from `origin` along `direction`, with the order of its first
    /// `steps` boundary crossings. The direction may have any length; its
    /// sign along an axis says which way the ray steps there, a component of
    /// zero counting as positive. At every step the ray crosses the boundary
    /// it reaches first; where it reaches two at the same time, Z goes
    /// before X and X before Y. An axis along which the direction is zero is
    /// never crossed while another can be; a direction of zero throughout
    /// makes a ray that crosses on Z only.
    pub fn through(origin: Origin, direction: Int3, steps: usize) -> (ray: Ray)
        ensures
            ray@ == ray_through(origin, direction, steps as nat),
    {
        let mut front = Front::new(origin, direction);
        let mut crossings: Vec<Axis> = Vec::new();
        let mut taken: usize = 0;
        while taken < steps
            invariant
                taken <= steps,
                crossings@.len() == taken,
                crossings@ == crossing_order(origin, direction, taken as nat),
                front.ahead_of(origin, direction, crossings@),
            decreases steps - taken,
        {
            let axis = front.cross(origin, direction, Ghost(crossings@));
            crossings.push(axis);
            taken = taken + 1;
        }
        Ray::new(origin.cell, direction.x < 0, direction.y < 0, direction.z < 0, crossings)
    }
}

/// A boundary that is no more than `taken` cells on from the first lies
/// within the distance that can be compared without overflow.
proof fn lemma_distance_bound(crossed: nat, taken: nat)
    requires
        crossed <= taken,
        taken <= usize::MAX,
    ensures
        CELL_UNITS + CELL_UNITS * crossed <= CELL_UNITS * 0x1_0000_0000_0000_0001,
{
    assert(CELL_UNITS + CELL_UNITS * crossed <= CELL_UNITS * 0x1_0000_0000_0000_0001)
        by (nonlinear_arith)
        requires
            crossed <= 0xffff_ffff_ffff_ffff,
    ;
}

impl Grid {
    /// The first solid tile that the ray from `origin` along `direction`
    /// enters within `max_steps` steps. The cell that holds the origin is not
    /// looked at.
    pub open spec fn raycast(self, origin: Origin, direction: Int3, max_steps: nat) -> Option<
        RaycastResult,
    > {
        self.walk(ray_through(origin, direction, max_steps), max_steps)
    }

    /// A ray cast of no steps hits nothing, wherever the ray starts,
    /// wherever it points and whatever the grid holds.
    pub proof fn lemma_raycast_no_steps(self, origin: Origin, direction: Int3)
        ensures
            self.raycast(origin, direction, 0) is None,
    {
    }

    /// A ray cast reports no hit exactly when none of the `max_steps` cells
    /// that the ray enters is solid, whatever else the grid holds.
    pub proof fn lemma_raycast_miss(self, origin: Origin, direction: Int3, max_steps: nat)
        ensures
            self.raycast(origin, direction, max_steps) is None <==> forall|n: nat|
                1 <= n <= max_steps ==> !#[trigger] self.solid_at(
                    ray_through(origin, direction, max_steps),
                    n,
                ),
    {
        lemma_crossing_order_grows(origin, direction, max_steps, max_steps);
        self.lemma_walk_miss(ray_through(origin, direction, max_steps), max_steps);
    }

    /// A ray cast that hits reports the first solid cell that the ray
    /// enters, after no more than `max_steps` advances; the number of
    /// advances is returned.
    pub proof fn lemma_raycast_hit(self, origin: Origin, direction: Int3, max_steps: nat) -> (n:
        nat)
        requires
            self.raycast(origin, direction, max_steps) is Some,
        ensures
            1 <= n <= max_steps,
            self.solid_at(ray_through(origin, direction, max_steps), n),
            forall|k: nat|
                1 <= k < n ==> !#[trigger] self.solid_at(
                    ray_through(origin, direction, max_steps),
                    k,
                ),
            self.raycast(origin, direction, max_steps) == Some(
                self.struck_at(ray_through(origin, direction, max_steps), n),
            ),
            self.raycast(origin, direction, max_steps)->0.tile != 0,
    {
        self.lemma_walk_hit(ray_through(origin, direction, max_steps), max_steps)
    }

    /// A larger budget never changes a hit: what a ray strikes within
    /// `max_steps` steps it strikes with every budget of `more` steps too.
    pub proof fn lemma_raycast_budget(self, origin: Origin, direction: Int3, max_steps: nat, more: nat)
        requires
            max_steps <= more,
            self.raycast(origin, direction, max_steps) is Some,
        ensures
            self.raycast(origin, direction, more) == self.raycast(origin, direction, max_steps),
    {
        let short = ray_through(origin, direction, max_steps);
        let long = ray_through(origin, direction, more);
        lemma_crossing_order_grows(origin, direction, max_steps, more);
        lemma_crossing_order_grows(origin, direction, max_steps, max_steps);
        assert(long.truncated(max_steps) == short);
        self.lemma_walk_within_budget(long, max_steps);
        self.lemma_walk_from_extends(long, 0, max_steps, more);
    }

    /// The length of the direction does not matter to a ray cast.
    pub proof fn lemma_raycast_scales(
        self,
        origin: Origin,
        direction: Int3,
        stretched: Int3,
        factor: int,
        max_steps: nat,
    )
        requires
            factor >= 1,
            stretched.x == factor * direction.x,
            stretched.y == factor * direction.y,
            stretched.z == factor * direction.z,
        ensures
            self.raycast(origin, stretched, max_steps) == self.raycast(origin, direction, max_steps),
    {
        lemma_crossing_order_scales(origin, direction, stretched, factor, max_steps);
    }
}

/// Ray casts are deterministic: worlds with the same tiles, the same origin,
/// the same direction and the same budget give the same outcome, whichever
/// values hold them and however often the cast is made.
pub proof fn lemma_raycast_deterministic(
    world: World,
    other: World,
    origin: Origin,
    direction: Int3,
    max_steps: usize,
)
    requires
        world@ == other@,
    ensures
        world@.raycast(origin, direction, max_steps as nat) == other@.raycast(
            origin,
            direction,
            max_steps as nat,
        ),
{
}

impl World {
    /// Casts the ray from `origin` along `direction` through the grid for at
    /// most `max_steps` steps. Each step crosses the cell boundary that the
    /// ray reaches first and looks at the tile of the cell behind it; the
    /// first solid tile ends the cast as a hit, with the normal of the face
    /// the ray came in through. Cells outside the grid count as steps and
    /// hold nothing. The cell that holds the origin is not looked at, so a
    /// cast of no steps never reads the grid. Each crossing is worked out
    /// when the walk comes to it, and none after a hit.
    pub fn raycast(&self, origin: Origin, direction: Int3, max_steps: usize) -> (hit: Option<
        RaycastResult,
    >)
        ensures
            hit == self@.raycast(origin, direction, max_steps as nat),
    {
        let ghost ray = ray_through(origin, direction, max_steps as nat);
        proof {
            lemma_crossing_order_grows(origin, direction, max_steps as nat, max_steps as nat);
        }
        let step = Int3 {
            x: step_of(direction.x < 0),
            y: step_of(direction.y < 0),
            z: step_of(direction.z < 0),
        };
        let mut front = Front::new(origin, direction);
        let mut cell: (i128, i128, i128) = (
            origin.cell.x as i128,
            origin.cell.y as i128,
            origin.cell.z as i128,
        );
        let mut taken: usize = 0;
        let ghost mut made: Seq<Axis> = Seq::empty();
        while taken < max_steps
            invariant
                taken <= max_steps,
                ray == ray_through(origin, direction, max_steps as nat),
                ray.crossings.len() == max_steps,
                step.ints() == ray.step,
                step.x == 1 || step.x == -1,
                step.y == 1 || step.y == -1,
                step.z == 1 || step.z == -1,
                made == crossing_order(origin, direction, taken as nat),
                made.len() == taken,
                front.ahead_of(origin, direction, made),
                (cell.0 as int, cell.1 as int, cell.2 as int) == ray.cell_after(taken as nat),
                i32::MIN - taken <= cell.0 <= i32::MAX + taken,
                i32::MIN - taken <= cell.1 <= i32::MAX + taken,
                i32::MIN - taken <= cell.2 <= i32::MAX + taken,
                self@.raycast(origin, direction, max_steps as nat) == self@.walk_from(
                    ray,
                    taken as nat,
                    max_steps as nat,
                ),
            decreases max_steps - taken,
        {
            let axis = front.cross(origin, direction, Ghost(made));
            proof {
                lemma_crossing_order_grows(
                    origin,
                    direction,
                    (taken + 1) as nat,
                    max_steps as nat,
                );
                made = made.push(axis);
                assert(ray.crossings[taken as int] == ray.crossings.take(taken + 1)[taken as int]);
                assert(ray.crossings[taken as int] == axis);
            }
            let (entered, hit) = step_into(self, cell, step, axis);
            cell = entered;
            taken = taken + 1;
            assert((cell.0 as int, cell.1 as int, cell.2 as int) == ray.cell_after(taken as nat));
            if hit.is_some() {
                return hit;
            }
        }
        None
    }
}

} // verus!
