//! The planner: one tree growing from the start, and the best route to the
//! goal that it has found so far.

use crate::geometry::{
    a_step_away, can_step, dist, lemma_steered_exact, on_bearing, steer, steered, try_steer, Point,
    MIN_STEP,
};
use crate::sampler::sample_in_range;
use crate::tree::{
    child_of, is_nearest, is_neighbourhood, nearest, rewired, root_path, well_formed, Node, Tree,
};
use rand::rngs::StdRng;
use vstd::prelude::*;

verus! {

/// Why a planner could not be made.
#[derive(Clone, Copy, Debug, PartialEq, Eq)]
pub enum ConfigError {
    /// The step size is not positive.
    StepSizeNotPositive,
    /// The goal threshold is not positive.
    GoalThresholdNotPositive,
    /// The search radius is not positive.
    SearchRadiusNotPositive,
}

/// What one iteration did.
#[derive(Clone, Copy, Debug, PartialEq, Eq)]
pub struct StepOutcome {
    /// The candidate point was free and became a node.
    pub node_added: bool,
    /// The new node gave a strictly cheaper route to the goal.
    pub path_improved: bool,
}

/// The rectangle `min_x..max_x` by `min_y..max_y` from which points are
/// sampled, in sub-units; the upper edges are not part of it.
#[derive(Clone, Copy, Debug, PartialEq, Eq)]
pub struct Bounds {
    pub min_x: i32,
    pub max_x: i32,
    pub min_y: i32,
    pub max_y: i32,
}

impl Bounds {
    /// `p` lies in the rectangle.
    pub open spec fn contains(&self, p: Point) -> bool {
        &&& self.min_x <= p.x < self.max_x
        &&& self.min_y <= p.y < self.max_y
    }

    /// The rectangle is not empty.
    pub open spec fn wf(&self) -> bool {
        &&& self.min_x < self.max_x
        &&& self.min_y < self.max_y
    }

    /// The rectangle with these edges, if it is not empty.
    pub fn new(min_x: i32, max_x: i32, min_y: i32, max_y: i32) -> (bounds: Option<Bounds>)
        ensures
            bounds is Some <==> (Bounds { min_x, max_x, min_y, max_y }).wf(),
            bounds matches Some(b) ==> b == (Bounds { min_x, max_x, min_y, max_y }),
    {
        if min_x < max_x && min_y < max_y {
            Some(Bounds { min_x, max_x, min_y, max_y })
        } else {
            None
        }
    }
}

/// What a planner holds, as plain values.
pub ghost struct PlannerView {
    pub nodes: Seq<Node>,
    pub goal: Point,
    pub step_size: u32,
    pub goal_threshold: u64,
    pub search_radius: u64,
    /// The cost of the best route found; `None` while there is none.
    pub best_cost: Option<u128>,
    /// The points of the best route found, the root's first; empty while
    /// there is none.
    pub best_path: Seq<Point>,
}

/// The invariant of a planner.
pub open spec fn planner_wf(v: PlannerView) -> bool {
    &&& well_formed(v.nodes)
    &&& 1 <= v.step_size
    &&& 1 <= v.goal_threshold
    &&& 1 <= v.search_radius
    &&& v.best_cost is None <==> v.best_path.len() == 0
    &&& v.best_cost is Some ==> v.best_path[0] == v.nodes[0].point && dist(
        v.best_path.last(),
        v.goal,
    ) < v.goal_threshold
}

/// The first reason, if any, for which these settings are refused: a
/// planner is made exactly where all three are positive.
pub open spec fn config_error(step_size: u32, goal_threshold: u64, search_radius: u64) -> Option<
    ConfigError,
> {
    if step_size == 0 {
        Some(ConfigError::StepSizeNotPositive)
    } else if goal_threshold == 0 {
        Some(ConfigError::GoalThresholdNotPositive)
    } else if search_radius == 0 {
        Some(ConfigError::SearchRadiusNotPositive)
    } else {
        None
    }
}

/// A planner that has only its root and knows no route yet.
pub open spec fn initial(
    start: Point,
    goal: Point,
    step_size: u32,
    goal_threshold: u64,
    search_radius: u64,
) -> PlannerView {
    PlannerView {
        nodes: seq![Node { point: start, parent: None, cost: 0 }],
        goal,
        step_size,
        goal_threshold,
        search_radius,
        best_cost: None,
        best_path: Seq::empty(),
    }
}

/// `cost` is strictly below the best cost so far; any cost is below none.
pub open spec fn beats(cost: u128, best: Option<u128>) -> bool {
    match best {
        None => true,
        Some(b) => cost < b,
    }
}

/// `after` is no worse a best cost than `before`: once a route is known
/// one stays known, at a cost that is no higher.
pub open spec fn no_worse(before: Option<u128>, after: Option<u128>) -> bool {
    before matches Some(b) ==> after matches Some(a) && a <= b
}

/// The newest node lies within the goal threshold of the goal and is
/// strictly cheaper than the best route so far.
pub open spec fn newest_improves(v: PlannerView) -> bool {
    &&& dist(v.nodes.last().point, v.goal) < v.goal_threshold
    &&& beats(v.nodes.last().cost, v.best_cost)
}

/// The planner after looking at its newest node: where that node improves
/// on the best route, its cost and the way to it replace the old ones.
pub open spec fn with_best_path_updated(v: PlannerView) -> PlannerView {
    if newest_improves(v) {
        PlannerView {
            best_cost: Some(v.nodes.last().cost),
            best_path: root_path(v.nodes, v.nodes.len() - 1),
            ..v
        }
    } else {
        v
    }
}

/// The planner with a new node at `point` below `parent`.
pub open spec fn with_node(v: PlannerView, point: Point, parent: int) -> PlannerView {
    PlannerView { nodes: v.nodes.push(child_of(v.nodes, point, parent)), ..v }
}

/// The planner with its tree rewired around `hub`.
pub open spec fn with_rewired(v: PlannerView, hub: int) -> PlannerView {
    PlannerView { nodes: rewired(v.nodes, hub, v.search_radius as nat), ..v }
}

/// The step from the node nearest to `sample` towards `sample` ends inside
/// the range of the coordinates.
pub open spec fn can_extend(v: PlannerView, sample: Point) -> bool {
    can_step(v.nodes[nearest(v.nodes, sample)].point, sample, v.step_size as nat)
}

/// The point that an iteration proposes for `sample`: one step from the
/// nearest node towards the sample.
pub open spec fn candidate(v: PlannerView, sample: Point) -> Point {
    steered(v.nodes[nearest(v.nodes, sample)].point, sample, v.step_size as nat)
}

/// The planner after the candidate for `sample` has become a node: the
/// node is added below the nearest node, the tree is rewired around it, and
/// the best route is looked at again.
pub open spec fn extended(v: PlannerView, sample: Point) -> PlannerView {
    with_best_path_updated(
        with_rewired(
            with_node(v, candidate(v, sample), nearest(v.nodes, sample)),
            v.nodes.len() as int,
        ),
    )
}

/// The planner after an iteration with `sample`, in which the candidate
/// became a node or did not.
pub open spec fn after_step(v: PlannerView, sample: Point, added: bool) -> PlannerView {
    if added {
        extended(v, sample)
    } else {
        v
    }
}

/// The candidate is at most one step from the nearest node and less than
/// two sub-units short of that. From `MIN_STEP` on it lies one step from
/// that node, in the direction of the sample, both to a thousandth. Where
/// the sample is the nearest node's own point, it lies one step along the
/// positive x axis.
pub proof fn lemma_candidate_exact(v: PlannerView, sample: Point)
    requires
        can_extend(v, sample),
    ensures
        ({
            let from = v.nodes[nearest(v.nodes, sample)].point;
            let step = v.step_size as nat;
            &&& dist(from, candidate(v, sample)) <= step
            &&& step >= 2 ==> step <= dist(from, candidate(v, sample)) + 2
            &&& step >= MIN_STEP ==> a_step_away(from, candidate(v, sample), step)
            &&& step >= MIN_STEP && from != sample ==> on_bearing(
                from,
                sample,
                candidate(v, sample),
            )
            &&& from == sample ==> candidate(v, sample) == (Point {
                x: (from.x + step) as i32,
                y: from.y,
            })
        }),
{
    lemma_steered_exact(v.nodes[nearest(v.nodes, sample)].point, sample, v.step_size as nat);
}

/// The relation `no_worse` carries over from one pair of costs to the next.
pub proof fn lemma_no_worse_transitive(a: Option<u128>, b: Option<u128>, c: Option<u128>)
    requires
        no_worse(a, b),
        no_worse(b, c),
    ensures
        no_worse(a, c),
{
}

/// Looking at the newest node never worsens the best cost, and changes it
/// exactly where the newest node improves on it.
pub proof fn lemma_update_never_worsens(v: PlannerView)
    ensures
        no_worse(v.best_cost, with_best_path_updated(v).best_cost),
        with_best_path_updated(v).best_cost != v.best_cost <==> newest_improves(v),
{
}

/// An iteration never worsens the best cost, whatever the sample and
/// whether or not its candidate became a node.
pub proof fn lemma_step_never_worsens(v: PlannerView, sample: Point, added: bool)
    ensures
        no_worse(v.best_cost, after_step(v, sample, added).best_cost),
{
    if added {
        lemma_update_never_worsens(
            with_rewired(
                with_node(v, candidate(v, sample), nearest(v.nodes, sample)),
                v.nodes.len() as int,
            ),
        );
    }
}

/// The planner after one iteration for each entry of `steps`, in order. An
/// entry holds the sample of its iteration and whether the candidate became
/// a node.
pub open spec fn after_steps(v: PlannerView, steps: Seq<(Point, bool)>) -> PlannerView
    decreases steps.len(),
{
    if steps.len() == 0 {
        v
    } else {
        after_step(after_steps(v, steps.drop_last()), steps.last().0, steps.last().1)
    }
}

/// Over any run of iterations the best cost never gets worse: once it is
/// known it stays known and does not rise.
pub proof fn lemma_steps_never_worsen(v: PlannerView, steps: Seq<(Point, bool)>)
    ensures
        no_worse(v.best_cost, after_steps(v, steps).best_cost),
    decreases steps.len(),
{
    if steps.len() > 0 {
        let earlier = after_steps(v, steps.drop_last());
        lemma_steps_never_worsen(v, steps.drop_last());
        lemma_step_never_worsens(earlier, steps.last().0, steps.last().1);
        lemma_no_worse_transitive(
            v.best_cost,
            earlier.best_cost,
            after_steps(v, steps).best_cost,
        );
    }
}

/// Asking for the best route twice, with no change to the planner between
/// the two, gives the same points.
pub proof fn lemma_best_path_repeatable(v: PlannerView, first: Seq<Point>, second: Seq<Point>)
    requires
        first == v.best_path,
        second == v.best_path,
    ensures
        first == second,
{
}

/// An RRT* planner.
pub struct RRTStar {
    tree: Tree,
    goal: Point,
    step_size: u32,
    goal_threshold: u64,
    search_radius: u64,
    best_cost: Option<u128>,
    best_path: Vec<Point>,
    rng: StdRng,
}

impl View for RRTStar {
    type V = PlannerView;

    closed spec fn view(&self) -> PlannerView {
        PlannerView {
            nodes: self.tree@,
            goal: self.goal,
            step_size: self.step_size,
            goal_threshold: self.goal_threshold,
            search_radius: self.search_radius,
            best_cost: self.best_cost,
            best_path: self.best_path@,
        }
    }
}

/// The candidate for `sample` became a node or did not, as `added` says,
/// for the reason that the planner allows: it becomes one where the step
/// to it can be taken and `is_free` accepts it, and none where the step
/// cannot be taken or `is_free` refuses it.
pub open spec fn decided<F: Fn(Point) -> bool>(
    is_free: F,
    v: PlannerView,
    sample: Point,
    added: bool,
) -> bool {
    if added {
        can_extend(v, sample) && call_ensures(is_free, (candidate(v, sample),), true)
    } else {
        !can_extend(v, sample) || call_ensures(is_free, (candidate(v, sample),), false)
    }
}

impl RRTStar {
    /// The invariant of the planner.
    pub open spec fn wf(&self) -> bool {
        planner_wf(self@)
    }

    /// The generator that the planner draws its samples from.
    pub closed spec fn generator(&self) -> StdRng {
        self.rng
    }

    /// A planner from `start` to `goal` that draws its samples from `rng`.
    /// It is made exactly where the three settings are positive.
    pub fn new(
        start: Point,
        goal: Point,
        step_size: u32,
        goal_threshold: u64,
        search_radius: u64,
        rng: StdRng,
    ) -> (made: Result<RRTStar, ConfigError>)
        ensures
            match made {
                Ok(planner) => config_error(step_size, goal_threshold, search_radius) is None
                    && planner@ == initial(start, goal, step_size, goal_threshold, search_radius)
                    && planner.generator() == rng && planner.wf(),
                Err(e) => config_error(step_size, goal_threshold, search_radius) == Some(e),
            },
    {
        if step_size == 0 {
            return Err(ConfigError::StepSizeNotPositive);
        }
        if goal_threshold == 0 {
            return Err(ConfigError::GoalThresholdNotPositive);
        }
        if search_radius == 0 {
            return Err(ConfigError::SearchRadiusNotPositive);
        }
        let planner = RRTStar {
            tree: Tree::new(start),
            goal,
            step_size,
            goal_threshold,
            search_radius,
            best_cost: None,
            best_path: Vec::new(),
            rng,
        };
        proof {
            assert(planner@.best_path =~= Seq::empty());
        }
        Ok(planner)
    }

    /// Draws a point from the rectangle `min_x..max_x` by `min_y..max_y`.
    /// The planner's tree and best route are left as they are.
    pub fn random_point(&mut self, min_x: i32, max_x: i32, min_y: i32, max_y: i32) -> (point: Point)
        requires
            min_x < max_x,
            min_y < max_y,
        ensures
            final(self)@ == old(self)@,
            (Bounds { min_x, max_x, min_y, max_y }).contains(point),
    {
        let x: i32 = sample_in_range(&mut self.rng, min_x, max_x);
        let y: i32 = sample_in_range(&mut self.rng, min_y, max_y);
        Point { x, y }
    }

    /// The index of the node nearest to `point`; among equally near nodes,
    /// the oldest.
    pub fn find_nearest(&self, point: &Point) -> (best: usize)
        requires
            self.wf(),
        ensures
            is_nearest(self@.nodes, *point, best as int),
            best == nearest(self@.nodes, *point),
    {
        self.tree.find_nearest(point)
    }

    /// One step of the planner's length from `from` towards `to`; where the
    /// two coincide, along the positive x axis. The point reached is never
    /// farther than the step and less than two sub-units short of it; from
    /// `MIN_STEP` on it is within a thousandth of the step's length and of
    /// its bearing.
    pub fn steer(&self, from: &Point, to: &Point) -> (point: Point)
        requires
            can_step(*from, *to, self@.step_size as nat),
        ensures
            point == steered(*from, *to, self@.step_size as nat),
            dist(*from, point) <= self@.step_size,
            self@.step_size >= 2 ==> self@.step_size <= dist(*from, point) + 2,
            self@.step_size >= MIN_STEP ==> a_step_away(*from, point, self@.step_size as nat),
            self@.step_size >= MIN_STEP && *from != *to ==> on_bearing(*from, *to, point),
            *from == *to ==> point.x == from.x + self@.step_size && point.y == from.y,
    {
        steer(from, to, self.step_size)
    }

    /// The predicate of a plane without obstacles: every point is free.
    pub fn is_collision_free(&self, _point: &Point) -> (free: bool)
        ensures
            free,
    {
        true
    }

    /// Appends a node at `point` below `parent_index` and returns its index.
    /// Its cost is the parent's cost plus the length of the new edge.
    pub fn add_node(&mut self, point: Point, parent_index: usize) -> (index: usize)
        requires
            old(self).wf(),
            parent_index < old(self)@.nodes.len(),
        ensures
            final(self)@ == with_node(old(self)@, point, parent_index as int),
            final(self).generator() == old(self).generator(),
            index == old(self)@.nodes.len(),
            final(self).wf(),
    {
        let index = self.tree.add_node(point, parent_index);
        proof {
            assert(self@.nodes[0] == old(self)@.nodes[0]);
        }
        index
    }

    /// The indices, in ascending order, of the other nodes that lie strictly
    /// within the search radius of node `index`.
    pub fn near(&self, index: usize) -> (found: Vec<usize>)
        requires
            index < self@.nodes.len(),
        ensures
            is_neighbourhood(self@.nodes, index as int, self@.search_radius as nat, found@),
    {
        self.tree.near(index, self.search_radius)
    }

    /// Rewires the tree around node `index`: each neighbour within the
    /// search radius to which that node offers a strictly cheaper route is
    /// moved below it and takes the cost of that route.
    pub fn rewire(&mut self, index: usize)
        requires
            old(self).wf(),
            index < old(self)@.nodes.len(),
        ensures
            final(self)@ == with_rewired(old(self)@, index as int),
            final(self).generator() == old(self).generator(),
            final(self).wf(),
    {
        self.tree.rewire(index, self.search_radius);
        proof {
            assert(self@.nodes[0].point == old(self)@.nodes[0].point);
        }
    }

    /// Looks at the newest node: where it lies within the goal threshold of
    /// the goal and is strictly cheaper than the best route so far, its cost
    /// and the way to it become the best route. Says whether they did.
    pub fn update_best_path(&mut self) -> (improved: bool)
        requires
            old(self).wf(),
        ensures
            improved == newest_improves(old(self)@),
            final(self)@ == with_best_path_updated(old(self)@),
            final(self).generator() == old(self).generator(),
            final(self).wf(),
            no_worse(old(self)@.best_cost, final(self)@.best_cost),
    {
        let newest = self.tree.node(self.tree.len() - 1);
        let arrived = newest.point.distance(&self.goal) < self.goal_threshold;
        let cheaper = match self.best_cost {
            None => true,
            Some(best) => newest.cost < best,
        };
        if arrived && cheaper {
            self.best_cost = Some(newest.cost);
            self.best_path = self.tree.trace_path();
            true
        } else {
            false
        }
    }

    /// The points on the way from the root to the newest node.
    pub fn trace_path(&self) -> (path: Vec<Point>)
        requires
            self.wf(),
        ensures
            path@ == root_path(self@.nodes, self@.nodes.len() - 1),
            1 <= path@.len() <= self@.nodes.len(),
            path@[0] == self@.nodes[0].point,
            path@.last() == self@.nodes.last().point,
    {
        self.tree.trace_path()
    }

    /// One iteration with a given sample: proposes the point one step from
    /// the nearest node towards `sample` and asks `is_free` about it. A free
    /// point becomes a node below the nearest node, the tree is rewired
    /// around it, and the best route is looked at again. Where the step
    /// would end outside the range of the coordinates there is no such
    /// point: `is_free` is not asked and nothing is added.
    pub fn extend_toward<F: Fn(Point) -> bool>(&mut self, sample: Point, is_free: F) -> (outcome:
        StepOutcome)
        requires
            old(self).wf(),
            forall|p: Point| call_requires(is_free, (p,)),
        ensures
            decided(is_free, old(self)@, sample, outcome.node_added),
            final(self)@ == after_step(old(self)@, sample, outcome.node_added),
            final(self).generator() == old(self).generator(),
            outcome.path_improved == (outcome.node_added && newest_improves(
                with_rewired(
                    with_node(
                        old(self)@,
                        candidate(old(self)@, sample),
                        nearest(old(self)@.nodes, sample),
                    ),
                    old(self)@.nodes.len() as int,
                ),
            )),
            outcome.path_improved == (final(self)@.best_cost != old(self)@.best_cost),
            final(self).wf(),
            no_worse(old(self)@.best_cost, final(self)@.best_cost),
    {
        let nearest_index = self.tree.find_nearest(&sample);
        let from = self.tree.node(nearest_index).point;
        match try_steer(&from, &sample, self.step_size) {
            Some(point) => {
                if is_free(point) {
                    let index = self.add_node(point, nearest_index);
                    self.rewire(index);
                    let path_improved = self.update_best_path();
                    StepOutcome { node_added: true, path_improved }
                } else {
                    StepOutcome { node_added: false, path_improved: false }
                }
            },
            None => StepOutcome { node_added: false, path_improved: false },
        }
    }

    /// One iteration: draws a sample from `bounds` and extends the tree
    /// towards it.
    pub fn step<F: Fn(Point) -> bool>(&mut self, bounds: Bounds, is_free: F) -> (outcome:
        StepOutcome)
        requires
            old(self).wf(),
            bounds.wf(),
            forall|p: Point| call_requires(is_free, (p,)),
        ensures
            exists|sample: Point|
                bounds.contains(sample) && decided(
                    is_free,
                    old(self)@,
                    sample,
                    outcome.node_added,
                ) && final(self)@ == #[trigger] after_step(old(self)@, sample, outcome.node_added),
            outcome.path_improved ==> outcome.node_added,
            outcome.path_improved == (final(self)@.best_cost != old(self)@.best_cost),
            final(self).wf(),
            no_worse(old(self)@.best_cost, final(self)@.best_cost),
    {
        let sample = self.random_point(bounds.min_x, bounds.max_x, bounds.min_y, bounds.max_y);
        self.extend_toward(sample, is_free)
    }

    /// The tree.
    pub fn tree(&self) -> (tree: &Tree)
        ensures
            tree@ == self@.nodes,
    {
        &self.tree
    }

    /// The nodes of the tree in the order in which they were added.
    pub fn nodes(&self) -> (nodes: &Vec<Node>)
        ensures
            nodes@ == self@.nodes,
    {
        self.tree.nodes()
    }

    /// The goal.
    pub fn goal(&self) -> (goal: Point)
        ensures
            goal == self@.goal,
    {
        self.goal
    }

    /// The length of a step.
    pub fn step_size(&self) -> (step_size: u32)
        ensures
            step_size == self@.step_size,
    {
        self.step_size
    }

    /// The distance from the goal below which a node has arrived.
    pub fn goal_threshold(&self) -> (goal_threshold: u64)
        ensures
            goal_threshold == self@.goal_threshold,
    {
        self.goal_threshold
    }

    /// The distance below which nodes are neighbours.
    pub fn search_radius(&self) -> (search_radius: u64)
        ensures
            search_radius == self@.search_radius,
    {
        self.search_radius
    }

    /// The cost of the best route found so far; `None` while no route is
    /// known.
    pub fn best_cost(&self) -> (cost: Option<u128>)
        ensures
            cost == self@.best_cost,
    {
        self.best_cost
    }

    /// The points of the best route found so far, the root's first; empty
    /// while no route is known.
    pub fn best_path(&self) -> (path: &Vec<Point>)
        ensures
            path@ == self@.best_path,
    {
        &self.best_path
    }
}

} // verus!
