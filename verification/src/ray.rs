//! Rays as the grid sees them, and the walk that finds the first solid tile
//! along one.
//!
//! A ray enters the grid's world as three pieces of discrete information: the
//! cell that holds its origin, the direction of travel along each axis, and
//! the order in which it crosses cell boundaries. Everything the walk decides
//! follows from those.

use vstd::prelude::*;
use crate::world::{Grid, Tile, World};

verus! {

/// One of the three grid axes.
#[derive(Clone, Copy, PartialEq, Eq, Structural, Debug)]
pub enum Axis {
    X,
    Y,
    Z,
}

/// Three integers: a cell position, a step per axis, or a face normal.
#[derive(Clone, Copy, PartialEq, Eq, Structural, Debug)]
pub struct Int3 {
    pub x: i32,
    pub y: i32,
    pub z: i32,
}

impl Int3 {
    /// The three components as mathematical integers.
    pub open spec fn ints(self) -> (int, int, int) {
        (self.x as int, self.y as int, self.z as int)
    }
}

/// What a ray struck: the solid tile, and the outward normal of the face it
/// entered through.
#[derive(Clone, Copy, PartialEq, Eq, Structural, Debug)]
pub struct RaycastResult {
    pub tile: Tile,
    pub normal: Int3,
}

/// The axis with the least boundary distance among `tx`, `ty`, `tz`. On a
/// tie Z is preferred to X, and X to Y.
pub open spec fn nearest_axis(tx: int, ty: int, tz: int) -> Axis {
    if tz <= tx && tz <= ty {
        Axis::Z
    } else if tx <= ty {
        Axis::X
    } else {
        Axis::Y
    }
}

/// The choice of `next_axis`, from the outcomes of the three comparisons.
pub open spec fn spec_next_axis(y_before_x: bool, y_before_z: bool, x_before_z: bool) -> Axis {
    if y_before_x && y_before_z {
        Axis::Y
    } else if x_before_z {
        Axis::X
    } else {
        Axis::Z
    }
}

/// The axis along which a ray advances next, given how the distances to its
/// next boundary on each axis compare: `y_before_x` says that the y boundary
/// is strictly nearer than the x boundary, and so on. Y advances only when it
/// is strictly nearer than both X and Z, so X and Z win their ties against Y;
/// otherwise X advances when it is strictly nearer than Z, and Z when it is
/// not.
#[verifier::when_used_as_spec(spec_next_axis)]
pub fn next_axis(y_before_x: bool, y_before_z: bool, x_before_z: bool) -> (axis: Axis)
    ensures
        axis == spec_next_axis(y_before_x, y_before_z, x_before_z),
{
    if y_before_x && y_before_z {
        Axis::Y
    } else if x_before_z {
        Axis::X
    } else {
        Axis::Z
    }
}

/// For distances that are totally ordered, the comparisons pick the axis of
/// least distance, with ties going to Z, then X, then Y.
pub proof fn lemma_next_axis_is_nearest(tx: int, ty: int, tz: int)
    ensures
        spec_next_axis(ty < tx, ty < tz, tx < tz) == nearest_axis(tx, ty, tz),
        match nearest_axis(tx, ty, tz) {
            Axis::X => tx <= ty && tx < tz,
            Axis::Y => ty < tx && ty < tz,
            Axis::Z => tz <= tx && tz <= ty,
        },
{
}

/// How many of the first `n` crossings are on `axis`.
pub open spec fn crossings_on(crossings: Seq<Axis>, axis: Axis, n: nat) -> nat
    decreases n,
{
    if n == 0 {
        0
    } else if crossings[n - 1] == axis {
        crossings_on(crossings, axis, (n - 1) as nat) + 1
    } else {
        crossings_on(crossings, axis, (n - 1) as nat)
    }
}

/// Counting over the first `n` crossings looks at no others.
pub proof fn lemma_crossings_on_prefix(a: Seq<Axis>, b: Seq<Axis>, axis: Axis, n: nat)
    requires
        n <= a.len(),
        n <= b.len(),
        forall|i: int| 0 <= i < n ==> a[i] == b[i],
    ensures
        crossings_on(a, axis, n) == crossings_on(b, axis, n),
        crossings_on(a, axis, n) <= n,
    decreases n,
{
    if n > 0 {
        lemma_crossings_on_prefix(a, b, axis, (n - 1) as nat);
    }
}

/// The step along one axis: `-1` against the axis, `+1` along it.
pub open spec fn spec_step_of(negative: bool) -> int {
    if negative {
        -1
    } else {
        1
    }
}

/// The mathematical content of a ray.
pub struct RayView {
    /// The cell that holds the origin.
    pub start: (int, int, int),
    /// The step per axis, each `+1` or `-1`.
    pub step: (int, int, int),
    /// The axes of the cell boundaries the ray crosses, in order.
    pub crossings: Seq<Axis>,
}

/// The cell one boundary further on from `cell`, across `axis`, for a ray
/// that steps by `step`.
pub open spec fn moved_by(step: (int, int, int), cell: (int, int, int), axis: Axis) -> (
    int,
    int,
    int,
) {
    match axis {
        Axis::X => (cell.0 + step.0, cell.1, cell.2),
        Axis::Y => (cell.0, cell.1 + step.1, cell.2),
        Axis::Z => (cell.0, cell.1, cell.2 + step.2),
    }
}

/// The normal of the face entered by crossing a boundary on `axis`, for a
/// ray that steps by `step`: it points back against the step.
pub open spec fn normal_by(step: (int, int, int), axis: Axis) -> (int, int, int) {
    match axis {
        Axis::X => (-step.0, 0, 0),
        Axis::Y => (0, -step.1, 0),
        Axis::Z => (0, 0, -step.2),
    }
}

impl RayView {
    /// The cell one boundary further on from `cell`, across `axis`.
    pub open spec fn moved(self, cell: (int, int, int), axis: Axis) -> (int, int, int) {
        moved_by(self.step, cell, axis)
    }

    /// The cell the ray is in after its first `n` crossings.
    pub open spec fn cell_after(self, n: nat) -> (int, int, int)
        decreases n,
    {
        if n == 0 {
            self.start
        } else {
            self.moved(self.cell_after((n - 1) as nat), self.crossings[n - 1])
        }
    }

    /// How many of the ray's first `n` crossings are on `axis`.
    pub open spec fn advances(self, axis: Axis, n: nat) -> nat {
        crossings_on(self.crossings, axis, n)
    }

    /// The normal of the face entered by crossing a boundary on `axis`: it
    /// points back against the step.
    pub open spec fn normal_of(self, axis: Axis) -> (int, int, int) {
        normal_by(self.step, axis)
    }

    /// The same ray, knowing only its first `n` crossings.
    pub open spec fn truncated(self, n: nat) -> RayView {
        if n <= self.crossings.len() {
            RayView { crossings: self.crossings.take(n as int), ..self }
        } else {
            self
        }
    }

    /// How many steps a walk of at most `max_steps` steps makes when no hit
    /// ends it early.
    pub open spec fn reach(self, max_steps: nat) -> nat {
        if max_steps <= self.crossings.len() {
            max_steps
        } else {
            self.crossings.len()
        }
    }
}

impl Grid {
    /// Whether the `n`-th cell the ray enters is solid.
    pub open spec fn solid_at(self, ray: RayView, n: nat) -> bool {
        let cell = ray.cell_after(n);
        self.solid(cell.0, cell.1, cell.2)
    }

    /// What a ray strikes in the solid cell `cell`, entered through the face
    /// with normal `normal`.
    pub open spec fn struck(self, cell: (int, int, int), normal: (int, int, int)) -> RaycastResult {
        RaycastResult {
            tile: self.tiles[self.offset_of(cell.0, cell.1, cell.2)],
            normal: Int3 { x: normal.0 as i32, y: normal.1 as i32, z: normal.2 as i32 },
        }
    }

    /// What the ray strikes on entering its `n`-th cell, if that cell is solid.
    pub open spec fn struck_at(self, ray: RayView, n: nat) -> RaycastResult
        recommends
            n >= 1,
    {
        self.struck(ray.cell_after(n), ray.normal_of(ray.crossings[n - 1]))
    }

    /// The walk from the cell reached after `taken` crossings: the first solid
    /// cell entered before the ray has made `limit` crossings in all.
    pub open spec fn walk_from(self, ray: RayView, taken: nat, limit: nat) -> Option<RaycastResult>
        decreases limit - taken,
    {
        if taken >= limit {
            None
        } else if self.solid_at(ray, taken + 1) {
            Some(self.struck_at(ray, taken + 1))
        } else {
            self.walk_from(ray, taken + 1, limit)
        }
    }

    /// The first solid tile that the ray enters within `max_steps` steps. The
    /// cell the ray starts in is not looked at.
    pub open spec fn walk(self, ray: RayView, max_steps: nat) -> Option<RaycastResult> {
        self.walk_from(ray, 0, ray.reach(max_steps))
    }
}

impl RayView {
    /// Every crossing advances exactly one axis by that axis's step: after
    /// `n` crossings the ray is in its starting cell displaced, along each
    /// axis, by the step times the number of crossings on that axis.
    pub proof fn lemma_cell_after_is_displacement(self, n: nat)
        ensures
            self.cell_after(n) == (
                self.start.0 + self.step.0 * self.advances(Axis::X, n),
                self.start.1 + self.step.1 * self.advances(Axis::Y, n),
                self.start.2 + self.step.2 * self.advances(Axis::Z, n),
            ),
            self.advances(Axis::X, n) + self.advances(Axis::Y, n) + self.advances(Axis::Z, n) == n,
        decreases n,
    {
        if n > 0 {
            let m = (n - 1) as nat;
            self.lemma_cell_after_is_displacement(m);
            let sx = self.step.0;
            let sy = self.step.1;
            let sz = self.step.2;
            let ax = self.advances(Axis::X, m) as int;
            let ay = self.advances(Axis::Y, m) as int;
            let az = self.advances(Axis::Z, m) as int;
            assert(sx * (ax + 1) == sx * ax + sx) by (nonlinear_arith);
            assert(sy * (ay + 1) == sy * ay + sy) by (nonlinear_arith);
            assert(sz * (az + 1) == sz * az + sz) by (nonlinear_arith);
            match self.crossings[n - 1] {
                Axis::X => {
                    assert(self.advances(Axis::X, n) == ax + 1);
                },
                Axis::Y => {
                    assert(self.advances(Axis::Y, n) == ay + 1);
                },
                Axis::Z => {
                    assert(self.advances(Axis::Z, n) == az + 1);
                },
            }
        } else {
            assert(self.step.0 * 0 == 0 && self.step.1 * 0 == 0 && self.step.2 * 0 == 0);
        }
    }

    /// Forgetting the crossings past the `limit`-th changes none of the first
    /// `limit` cells.
    pub proof fn lemma_truncated_cell(self, limit: nat, n: nat)
        requires
            n <= limit,
            n <= self.crossings.len(),
        ensures
            self.truncated(limit).cell_after(n) == self.cell_after(n),
        decreases n,
    {
        if n > 0 {
            self.lemma_truncated_cell(limit, (n - 1) as nat);
        }
    }
}

impl Grid {
    /// Two walks agree when, step for step, they enter the same cells through
    /// the same faces and find the same tiles there.
    pub proof fn lemma_walk_from_congruent(
        self,
        ray: RayView,
        other: Grid,
        other_ray: RayView,
        taken: nat,
        limit: nat,
    )
        requires
            forall|n: nat|
                taken < n <= limit ==> {
                    let cell = #[trigger] ray.cell_after(n);
                    &&& other_ray.cell_after(n) == cell
                    &&& other.get(cell.0, cell.1, cell.2) == self.get(cell.0, cell.1, cell.2)
                    &&& other_ray.normal_of(other_ray.crossings[n - 1]) == ray.normal_of(
                        ray.crossings[n - 1],
                    )
                },
        ensures
            self.walk_from(ray, taken, limit) == other.walk_from(other_ray, taken, limit),
        decreases limit - taken,
    {
        if taken < limit {
            let cell = ray.cell_after(taken + 1);
            assert(other_ray.cell_after(taken + 1) == cell);
            self.lemma_walk_from_congruent(ray, other, other_ray, taken + 1, limit);
        }
    }

    /// A walk ends without a hit exactly when none of the cells it enters is
    /// solid.
    pub proof fn lemma_walk_from_miss(self, ray: RayView, taken: nat, limit: nat)
        ensures
            self.walk_from(ray, taken, limit) is None <==> forall|n: nat|
                taken < n <= limit ==> !#[trigger] self.solid_at(ray, n),
        decreases limit - taken,
    {
        if taken < limit {
            self.lemma_walk_from_miss(ray, taken + 1, limit);
        }
    }

    /// A hit is the first solid cell that the walk enters: it returns the
    /// number of the step that struck it.
    pub proof fn lemma_walk_from_hit(self, ray: RayView, taken: nat, limit: nat) -> (n: nat)
        requires
            self.walk_from(ray, taken, limit) is Some,
        ensures
            taken < n <= limit,
            self.solid_at(ray, n),
            forall|k: nat| taken < k < n ==> !#[trigger] self.solid_at(ray, k),
            self.walk_from(ray, taken, limit) == Some(self.struck_at(ray, n)),
        decreases limit - taken,
    {
        if self.solid_at(ray, taken + 1) {
            taken + 1
        } else {
            self.lemma_walk_from_hit(ray, taken + 1, limit)
        }
    }

    /// A hit stays a hit when the walk is allowed to go on for longer.
    pub proof fn lemma_walk_from_extends(self, ray: RayView, taken: nat, limit: nat, more: nat)
        requires
            limit <= more,
            self.walk_from(ray, taken, limit) is Some,
        ensures
            self.walk_from(ray, taken, more) == self.walk_from(ray, taken, limit),
        decreases limit - taken,
    {
        if taken < limit && !self.solid_at(ray, taken + 1) {
            self.lemma_walk_from_extends(ray, taken + 1, limit, more);
        }
    }

    /// A walk reports no hit exactly when none of the cells it enters is
    /// solid, whatever else the grid holds.
    pub proof fn lemma_walk_miss(self, ray: RayView, max_steps: nat)
        ensures
            self.walk(ray, max_steps) is None <==> forall|n: nat|
                1 <= n <= ray.reach(max_steps) ==> !#[trigger] self.solid_at(ray, n),
    {
        self.lemma_walk_from_miss(ray, 0, ray.reach(max_steps));
    }

    /// A walk that hits reports the first solid cell entered, reached in
    /// no more than `max_steps` steps; the step's number is returned.
    pub proof fn lemma_walk_hit(self, ray: RayView, max_steps: nat) -> (n: nat)
        requires
            self.walk(ray, max_steps) is Some,
        ensures
            1 <= n <= max_steps,
            n <= ray.crossings.len(),
            self.solid_at(ray, n),
            forall|k: nat| 1 <= k < n ==> !#[trigger] self.solid_at(ray, k),
            self.walk(ray, max_steps) == Some(self.struck_at(ray, n)),
            self.walk(ray, max_steps)->0.tile != 0,
    {
        self.lemma_walk_from_hit(ray, 0, ray.reach(max_steps))
    }

    /// A walk of no steps hits nothing, wherever the ray starts and
    /// whatever the grid holds.
    pub proof fn lemma_walk_no_steps(self, ray: RayView)
        ensures
            self.walk(ray, 0) is None,
    {
    }

    /// A walk of at most `max_steps` steps makes no more than `max_steps`
    /// advances: its outcome is the same when the ray's crossings past the
    /// `max_steps`-th are forgotten.
    pub proof fn lemma_walk_within_budget(self, ray: RayView, max_steps: nat)
        ensures
            ray.reach(max_steps) <= max_steps,
            self.walk(ray, max_steps) == self.walk(ray.truncated(max_steps), max_steps),
    {
        let cut = ray.truncated(max_steps);
        let reach = ray.reach(max_steps);
        assert(cut.reach(max_steps) == reach);
        assert forall|n: nat| 0 < n <= reach implies {
            let cell = #[trigger] ray.cell_after(n);
            &&& cut.cell_after(n) == cell
            &&& self.get(cell.0, cell.1, cell.2) == self.get(cell.0, cell.1, cell.2)
            &&& cut.normal_of(cut.crossings[n - 1]) == ray.normal_of(ray.crossings[n - 1])
        } by {
            ray.lemma_truncated_cell(max_steps, n);
        }
        self.lemma_walk_from_congruent(ray, self, cut, 0, reach);
    }

    /// The outcome of a walk depends on the grid only through the cells
    /// that the walk enters.
    pub proof fn lemma_walk_local(self, other: Grid, ray: RayView, max_steps: nat)
        requires
            forall|n: nat|
                1 <= n <= ray.reach(max_steps) ==> {
                    let cell = #[trigger] ray.cell_after(n);
                    other.get(cell.0, cell.1, cell.2) == self.get(cell.0, cell.1, cell.2)
                },
        ensures
            self.walk(ray, max_steps) == other.walk(ray, max_steps),
    {
        self.lemma_walk_from_congruent(ray, other, ray, 0, ray.reach(max_steps));
    }
}

/// A ray through the grid: the cell it starts in, its step along each axis,
/// and the order in which it crosses cell boundaries.
pub struct Ray {
    start: Int3,
    step: Int3,
    crossings: Vec<Axis>,
}

impl View for Ray {
    type V = RayView;

    closed spec fn view(&self) -> RayView {
        RayView { start: self.start.ints(), step: self.step.ints(), crossings: self.crossings@ }
    }
}

/// The step along one axis: `-1` against the axis, `+1` along it.
pub fn step_of(negative: bool) -> (step: i32)
    ensures
        step == spec_step_of(negative),
{
    if negative {
        -1
    } else {
        1
    }
}

impl Ray {
    #[verifier::type_invariant]
    spec fn inv(self) -> bool {
        &&& self.step.x == 1 || self.step.x == -1
        &&& self.step.y == 1 || self.step.y == -1
        &&& self.step.z == 1 || self.step.z == -1
    }

    /// The ray that starts in cell `start`, travels against each axis whose
    /// flag is set and along the others, and crosses cell boundaries on the
    /// axes of `crossings`, in that order.
    pub fn new(
        start: Int3,
        x_negative: bool,
        y_negative: bool,
        z_negative: bool,
        crossings: Vec<Axis>,
    ) -> (ray: Ray)
        ensures
            ray@ == (RayView {
                start: start.ints(),
                step: (spec_step_of(x_negative), spec_step_of(y_negative), spec_step_of(z_negative)),
                crossings: crossings@,
            }),
    {
        let step = Int3 { x: step_of(x_negative), y: step_of(y_negative), z: step_of(z_negative) };
        Ray { start, step, crossings }
    }

    /// The cell that the ray starts in.
    pub fn start(&self) -> (start: Int3)
        ensures
            start.ints() == self@.start,
    {
        self.start
    }

    /// The step of the ray along each axis, each `+1` or `-1`.
    pub fn step(&self) -> (step: Int3)
        ensures
            step.ints() == self@.step,
            step.x == 1 || step.x == -1,
            step.y == 1 || step.y == -1,
            step.z == 1 || step.z == -1,
    {
        proof {
            use_type_invariant(self);
        }
        self.step
    }

    /// The axes of the boundaries that the ray crosses, in order.
    pub fn crossings(&self) -> (crossings: &Vec<Axis>)
        ensures
            crossings@ == self@.crossings,
    {
        &self.crossings
    }
}

/// The tile at a cell given by signed coordinates; cells with a negative
/// coordinate lie outside every grid.
fn probe(world: &World, x: i128, y: i128, z: i128) -> (tile: Option<Tile>)
    ensures
        tile == world@.get(x as int, y as int, z as int),
{
    let size_x = world.size_x();
    let size_y = world.size_y();
    let size_z = world.size_z();
    if x < 0 || y < 0 || z < 0 || x >= size_x as i128 || y >= size_y as i128 || z >= size_z as i128 {
        None
    } else {
        world.get(x as usize, y as usize, z as usize)
    }
}

/// How far from the origin of the grid a walk can get: as far as a start
/// anywhere in the range of a cell coordinate and one step for every count
/// that a machine word can hold.
pub(crate) open spec fn within_walk(coordinate: i128) -> bool {
    -0x1_0000_0000_8000_0000 <= coordinate <= 0x1_0000_0000_8000_0000
}

/// One step of a walk: moves from `cell` across the boundary on `axis` by
/// the ray's `step`, and looks at the tile of the cell entered. A solid tile
/// gives the hit, with the normal of the face entered.
pub(crate) fn step_into(
    world: &World,
    cell: (i128, i128, i128),
    step: Int3,
    axis: Axis,
) -> (entered: ((i128, i128, i128), Option<RaycastResult>))
    requires
        step.x == 1 || step.x == -1,
        step.y == 1 || step.y == -1,
        step.z == 1 || step.z == -1,
        within_walk(cell.0),
        within_walk(cell.1),
        within_walk(cell.2),
    ensures
        (entered.0.0 as int, entered.0.1 as int, entered.0.2 as int) == moved_by(
            step.ints(),
            (cell.0 as int, cell.1 as int, cell.2 as int),
            axis,
        ),
        entered.1 == if world@.solid(entered.0.0 as int, entered.0.1 as int, entered.0.2 as int) {
            Some(
                world@.struck(
                    (entered.0.0 as int, entered.0.1 as int, entered.0.2 as int),
                    normal_by(step.ints(), axis),
                ),
            )
        } else {
            None
        },
{
    let (x, y, z, normal) = match axis {
        Axis::X => (cell.0 + step.x as i128, cell.1, cell.2, Int3 { x: -step.x, y: 0, z: 0 }),
        Axis::Y => (cell.0, cell.1 + step.y as i128, cell.2, Int3 { x: 0, y: -step.y, z: 0 }),
        Axis::Z => (cell.0, cell.1, cell.2 + step.z as i128, Int3 { x: 0, y: 0, z: -step.z }),
    };
    match probe(world, x, y, z) {
        Some(tile) => {
            if tile != 0 {
                ((x, y, z), Some(RaycastResult { tile, normal }))
            } else {
                ((x, y, z), None)
            }
        },
        None => ((x, y, z), None),
    }
}

impl World {
    /// Walks `ray` through the grid for at most `max_steps` steps, and for no
    /// more steps than the ray has crossings. Each step moves to the next cell
    /// and looks at its tile; the first solid tile ends the walk as a hit,
    /// with the normal of the face the ray came in through. Cells outside the
    /// grid count as steps and hold nothing. The starting cell is not looked
    /// at, so a walk of no steps never reads the grid.
    pub fn walk(&self, ray: &Ray, max_steps: usize) -> (hit: Option<RaycastResult>)
        ensures
            hit == self@.walk(ray@, max_steps as nat),
    {
        proof {
            use_type_invariant(ray);
        }
        let reach = if max_steps <= ray.crossings.len() {
            max_steps
        } else {
            ray.crossings.len()
        };
        let mut cell: (i128, i128, i128) = (
            ray.start.x as i128,
            ray.start.y as i128,
            ray.start.z as i128,
        );
        let mut taken: usize = 0;
        while taken < reach
            invariant
                taken <= reach <= ray.crossings.len(),
                reach == ray@.reach(max_steps as nat),
                ray.inv(),
                (cell.0 as int, cell.1 as int, cell.2 as int) == ray@.cell_after(taken as nat),
                i32::MIN - taken <= cell.0 <= i32::MAX + taken,
                i32::MIN - taken <= cell.1 <= i32::MAX + taken,
                i32::MIN - taken <= cell.2 <= i32::MAX + taken,
                self@.walk(ray@, max_steps as nat) == self@.walk_from(
                    ray@,
                    taken as nat,
                    reach as nat,
                ),
            decreases reach - taken,
        {
            let axis = ray.crossings[taken];
            let (entered, hit) = step_into(self, cell, ray.step, axis);
            cell = entered;
            taken = taken + 1;
            assert((cell.0 as int, cell.1 as int, cell.2 as int) == ray@.cell_after(taken as nat));
            if hit.is_some() {
                return hit;
            }
        }
        None
    }
}

} // verus!
