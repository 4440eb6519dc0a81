use vstd::prelude::*;

use crate::graph::Graph;
use crate::grid_algebra::{grid_ok, Cell, GridAlgebra, LaneId};
use crate::id_map::{strictly_increasing, IdMap};
use crate::ids::{DependencyId, TaskId};
use crate::stretch::{down_n, unit_seconds, Stretch};

verus! {

/// A position or length on the drawing surface.
#[derive(Debug, Clone, Copy, PartialEq, Eq, Structural, Hash, PartialOrd, Ord)]
pub struct ReifiedUnit(pub u16);

impl ReifiedUnit {
    /// The unit at `position`.
    pub fn new(position: u16) -> (r: ReifiedUnit)
        ensures
            r.0 == position,
    {
        ReifiedUnit(position)
    }

    /// The position.
    pub fn value(&self) -> (r: u16)
        ensures
            r == self.0,
    {
        self.0
    }
}

/// The space cut from the end of a stretch, to leave room for connections.
#[derive(Debug, Clone, Copy, PartialEq, Eq, Structural, Hash, PartialOrd, Ord)]
pub struct Trim(pub ReifiedUnit);

impl Trim {
    /// A trim of `trim` units.
    pub fn new(trim: ReifiedUnit) -> (r: Trim)
        ensures
            r.0 == trim,
    {
        Trim(trim)
    }

    /// The size of the trim.
    pub fn value(&self) -> (r: ReifiedUnit)
        ensures
            r == self.0,
    {
        self.0
    }
}

/// The space between two lanes.
#[derive(Debug, Clone, Copy, PartialEq, Eq, Structural, Hash, PartialOrd, Ord)]
pub struct DownLanePadding(pub ReifiedUnit);

impl DownLanePadding {
    /// A padding of `padding` units.
    pub fn new(padding: ReifiedUnit) -> (r: DownLanePadding)
        ensures
            r.0 == padding,
    {
        DownLanePadding(padding)
    }

    /// The size of the padding.
    pub fn value(&self) -> (r: ReifiedUnit)
        ensures
            r == self.0,
    {
        self.0
    }
}

/// A step of the shape of a joint.
#[derive(Debug, Clone, Copy, PartialEq, Eq, Structural, Hash, PartialOrd, Ord)]
pub struct JointUnit(pub ReifiedUnit);

impl JointUnit {
    /// The step of `unit`.
    pub fn new(unit: ReifiedUnit) -> (r: JointUnit)
        ensures
            r.0 == unit,
    {
        JointUnit(unit)
    }

    /// The size of the step.
    pub fn value(&self) -> (r: ReifiedUnit)
        ensures
            r == self.0,
    {
        self.0
    }
}

/// The horizontal extent of a task on the drawing surface.
#[derive(Debug, Clone, Copy, PartialEq, Eq, Structural, Hash, PartialOrd, Ord)]
pub struct DownStretchRange {
    pub start: ReifiedUnit,
    pub end: ReifiedUnit,
}

impl DownStretchRange {
    /// The extent from `start` to `end`.
    pub fn new(start: ReifiedUnit, end: ReifiedUnit) -> (r: DownStretchRange)
        ensures
            r.start == start,
            r.end == end,
    {
        DownStretchRange { start, end }
    }

    /// Where the extent starts.
    pub fn start(&self) -> (r: ReifiedUnit)
        ensures
            r == self.start,
    {
        self.start
    }

    /// Where the extent ends.
    pub fn end(&self) -> (r: ReifiedUnit)
        ensures
            r == self.end,
    {
        self.end
    }
}

/// The vertical extent of a lane on the drawing surface.
#[derive(Debug, Clone, Copy, PartialEq, Eq, Structural, Hash, PartialOrd, Ord)]
pub struct DownLaneRange {
    pub start: ReifiedUnit,
    pub end: ReifiedUnit,
}

impl DownLaneRange {
    /// The extent from `start` to `end`.
    pub fn new(start: ReifiedUnit, end: ReifiedUnit) -> (r: DownLaneRange)
        ensures
            r.start == start,
            r.end == end,
    {
        DownLaneRange { start, end }
    }

    /// Where the extent starts.
    pub fn start(&self) -> (r: ReifiedUnit)
        ensures
            r == self.start,
    {
        self.start
    }

    /// Where the extent ends.
    pub fn end(&self) -> (r: ReifiedUnit)
        ensures
            r == self.end,
    {
        self.end
    }
}

/// The start of a stretch counted in the next smaller unit.
pub open spec fn scaled_start(s: Stretch) -> u64 {
    ((s.range.spec_start() * unit_seconds(s.unit)) as u64 / unit_seconds(down_n(s.unit, 1)))
}

/// The end of a stretch counted in the next smaller unit.
pub open spec fn scaled_end(s: Stretch) -> u64 {
    ((s.range.spec_end() * unit_seconds(s.unit)) as u64 / unit_seconds(down_n(s.unit, 1)))
}

/// The horizontal extent of a task: its stretch in the next smaller unit,
/// less the trim at the end.
#[derive(Debug, Clone, Copy, PartialEq, Eq, Structural, Hash, PartialOrd, Ord)]
pub struct DownStretch {
    pub stretch: Stretch,
    pub trim: Trim,
    pub down_stretch: DownStretchRange,
}

impl DownStretch {
    /// The extent `down_stretch` of `stretch` with `trim`.
    pub fn new(stretch: Stretch, trim: Trim, down_stretch: DownStretchRange) -> (r: DownStretch)
        ensures
            r.stretch == stretch,
            r.trim == trim,
            r.down_stretch == down_stretch,
    {
        DownStretch { stretch, trim, down_stretch }
    }

    /// The extent of `stretch`: counted in the next smaller unit, each end
    /// cut to 16 bits, less `trim` at the end.
    pub fn canonical_from_stretch(stretch: Stretch, trim: Trim) -> (r: DownStretch)
        requires
            (scaled_end(stretch) as u16) >= trim.0.0,
        ensures
            r.stretch == stretch,
            r.trim == trim,
            r.down_stretch.start.0 == scaled_start(stretch) as u16,
            r.down_stretch.end.0 == (scaled_end(stretch) as u16) - trim.0.0,
    {
        let unit = stretch.unit().down(1);
        let (start, end) = stretch.scale(unit);
        let end16: u16 = (end as u16) - trim.value().value();
        let down_stretch = DownStretchRange::new(ReifiedUnit::new(start as u16), ReifiedUnit::new(end16));
        DownStretch { stretch, trim, down_stretch }
    }

    /// The stretch.
    pub fn stretch(&self) -> (r: &Stretch)
        ensures
            *r == self.stretch,
    {
        &self.stretch
    }

    /// The trim.
    pub fn trim(&self) -> (r: &Trim)
        ensures
            *r == self.trim,
    {
        &self.trim
    }

    /// The extent.
    pub fn down_stretch(&self) -> (r: &DownStretchRange)
        ensures
            *r == self.down_stretch,
    {
        &self.down_stretch
    }

    /// Where connections leave the task: the end of its extent.
    pub fn outgoing_connection_point(&self) -> (r: ReifiedUnit)
        ensures
            r == self.down_stretch.end,
    {
        self.down_stretch.end
    }

    /// Where connections enter the task: the start of its extent.
    pub fn incoming_connection_point(&self) -> (r: ReifiedUnit)
        ensures
            r == self.down_stretch.start,
    {
        self.down_stretch.start
    }

    /// The width of the extent.
    pub fn width(&self) -> (r: ReifiedUnit)
        requires
            self.down_stretch.start.0 <= self.down_stretch.end.0,
        ensures
            r.0 == self.down_stretch.end.0 - self.down_stretch.start.0,
    {
        ReifiedUnit(self.down_stretch.end.0 - self.down_stretch.start.0)
    }
}

/// The vertical extent of a lane.
#[derive(Debug, Clone, Copy, PartialEq, Eq, Structural, Hash, PartialOrd, Ord)]
pub struct DownLane {
    pub lane_id: LaneId,
    pub padding: DownLanePadding,
    pub range: DownLaneRange,
}

/// The pitch of the lanes: two units of lane and the padding.
pub open spec fn lane_pitch(padding: DownLanePadding) -> int {
    2 + padding.0.0
}

impl DownLane {
    /// The lane `lane_id` with `padding` over `range`.
    pub fn new(lane_id: LaneId, padding: DownLanePadding, range: DownLaneRange) -> (r: DownLane)
        ensures
            r.lane_id == lane_id,
            r.padding == padding,
            r.range == range,
    {
        DownLane { lane_id, padding, range }
    }

    /// The extent of `lane`: lanes follow one another at a pitch of two
    /// units and the padding.
    pub fn canonical_from_lane(lane: LaneId, padding: DownLanePadding) -> (r: DownLane)
        requires
            lane_pitch(padding) * (lane.0 + 1) <= 65535,
        ensures
            r.lane_id == lane,
            r.padding == padding,
            r.range.start.0 == lane_pitch(padding) * lane.0,
            r.range.end.0 == lane_pitch(padding) * (lane.0 + 1),
    {
        proof {
            assert(lane_pitch(padding) * lane.0 <= lane_pitch(padding) * (lane.0 + 1)) by (nonlinear_arith)
                requires lane_pitch(padding) >= 0;
            assert(lane_pitch(padding) <= lane_pitch(padding) * (lane.0 + 1)) by (nonlinear_arith)
                requires lane_pitch(padding) >= 0, lane.0 >= 0;
        }
        let pitch: u16 = 2 + padding.value().value();
        let start: u16 = pitch * (lane.value() as u16);
        let end: u16 = pitch * (lane.value() as u16 + 1);
        DownLane { lane_id: lane, padding, range: DownLaneRange { start: ReifiedUnit(start), end: ReifiedUnit(end) } }
    }

    /// The lane.
    pub fn lane_id(&self) -> (r: LaneId)
        ensures
            r == self.lane_id,
    {
        self.lane_id
    }

    /// The padding.
    pub fn padding(&self) -> (r: &DownLanePadding)
        ensures
            *r == self.padding,
    {
        &self.padding
    }

    /// The extent.
    pub fn range(&self) -> (r: &DownLaneRange)
        ensures
            *r == self.range,
    {
        &self.range
    }

    /// The middle of the extent, rounded down: where connections meet the lane.
    pub fn midpoint(&self) -> (r: ReifiedUnit)
        requires
            self.range.start.0 + self.range.end.0 <= 65535,
        ensures
            r.0 == (self.range.start.0 + self.range.end.0) / 2,
    {
        ReifiedUnit((self.range.start.0 + self.range.end.0) / 2)
    }

    /// The height of the extent.
    pub fn height(&self) -> (r: ReifiedUnit)
        requires
            self.range.start.0 <= self.range.end.0,
        ensures
            r.0 == self.range.end.0 - self.range.start.0,
    {
        ReifiedUnit(self.range.end.0 - self.range.start.0)
    }
}

/// A task on the drawing surface: its cell, lane extent and horizontal extent.
#[derive(Debug, Clone, Copy, PartialEq, Eq, Structural, Hash, PartialOrd, Ord)]
pub struct DownCell {
    pub cell: Cell,
    pub down_lane: DownLane,
    pub down_stretch: DownStretch,
}

/// The middle of a lane extent.
pub open spec fn lane_mid(l: DownLane) -> int {
    (l.range.start.0 + l.range.end.0) / 2
}

impl DownCell {
    /// The drawing of `cell`.
    pub fn new(cell: Cell, down_lane: DownLane, down_stretch: DownStretch) -> (r: DownCell)
        ensures
            r.cell == cell,
            r.down_lane == down_lane,
            r.down_stretch == down_stretch,
    {
        DownCell { cell, down_lane, down_stretch }
    }

    /// The cell.
    pub fn cell(&self) -> (r: &Cell)
        ensures
            *r == self.cell,
    {
        &self.cell
    }

    /// The lane extent.
    pub fn down_lane(&self) -> (r: &DownLane)
        ensures
            *r == self.down_lane,
    {
        &self.down_lane
    }

    /// The horizontal extent.
    pub fn down_stretch(&self) -> (r: &DownStretch)
        ensures
            *r == self.down_stretch,
    {
        &self.down_stretch
    }

    /// The upper left corner: the start of the lane extent and of the
    /// horizontal extent.
    pub fn upper_left(&self) -> (r: (ReifiedUnit, ReifiedUnit))
        ensures
            r == (self.down_lane.range.start, self.down_stretch.down_stretch.start),
    {
        (self.down_lane.range.start, self.down_stretch.down_stretch.start)
    }

    /// The height of the drawing.
    pub fn height(&self) -> (r: ReifiedUnit)
        requires
            self.down_lane.range.start.0 <= self.down_lane.range.end.0,
        ensures
            r.0 == self.down_lane.range.end.0 - self.down_lane.range.start.0,
    {
        self.down_lane.height()
    }

    /// The width of the drawing.
    pub fn width(&self) -> (r: ReifiedUnit)
        requires
            self.down_stretch.down_stretch.start.0 <= self.down_stretch.down_stretch.end.0,
        ensures
            r.0 == self.down_stretch.down_stretch.end.0 - self.down_stretch.down_stretch.start.0,
    {
        self.down_stretch.width()
    }

    /// Where connections leave: the end of the extent, at the lane's middle.
    pub fn outgoing_connection_point(&self) -> (r: (ReifiedUnit, ReifiedUnit))
        requires
            self.down_lane.range.start.0 + self.down_lane.range.end.0 <= 65535,
        ensures
            r.0 == self.down_stretch.down_stretch.end,
            r.1.0 == lane_mid(self.down_lane),
    {
        (self.down_stretch.outgoing_connection_point(), self.down_lane.midpoint())
    }

    /// Where connections enter: the start of the extent, at the lane's middle.
    pub fn incoming_connection_point(&self) -> (r: (ReifiedUnit, ReifiedUnit))
        requires
            self.down_lane.range.start.0 + self.down_lane.range.end.0 <= 65535,
        ensures
            r.0 == self.down_stretch.down_stretch.start,
            r.1.0 == lane_mid(self.down_lane),
    {
        (self.down_stretch.incoming_connection_point(), self.down_lane.midpoint())
    }
}

/// A point on the drawing surface.
#[derive(Debug, Clone, Copy, PartialEq, Eq, Structural, Hash, PartialOrd, Ord)]
pub struct ConnectionPoint {
    pub x: ReifiedUnit,
    pub y: ReifiedUnit,
}

impl ConnectionPoint {
    /// The point at `x`, `y`.
    pub fn new(x: ReifiedUnit, y: ReifiedUnit) -> (r: ConnectionPoint)
        ensures
            r.x == x,
            r.y == y,
    {
        ConnectionPoint { x, y }
    }
}

/// The drawing of a dependency: from where it leaves its source to where it
/// enters its target.
#[derive(Debug, Clone, Copy, PartialEq, Eq, Structural, Hash, PartialOrd, Ord)]
pub struct Joint {
    pub dependency: DependencyId,
    pub start: ConnectionPoint,
    pub end: ConnectionPoint,
}

impl Joint {
    /// The joint of `dependency` from `start` to `end`.
    pub fn flowing_joint(dependency: DependencyId, start: ConnectionPoint, end: ConnectionPoint) -> (r: Joint)
        ensures
            r.dependency == dependency,
            r.start == start,
            r.end == end,
    {
        Joint { dependency, start, end }
    }

    /// The dependency drawn.
    pub fn dependency(&self) -> (r: DependencyId)
        ensures
            r == self.dependency,
    {
        self.dependency
    }
}

/// The visual spacing of a drawing.
#[derive(Debug, Clone, Copy, PartialEq, Eq, Structural)]
pub struct ReifiedConfig {
    pub connection_trim: Trim,
    pub inter_lane_padding: DownLanePadding,
}

impl ReifiedConfig {
    /// The spacing with `connection_trim` and `inter_lane_padding`.
    pub fn new(connection_trim: Trim, inter_lane_padding: DownLanePadding) -> (r: ReifiedConfig)
        ensures
            r.connection_trim == connection_trim,
            r.inter_lane_padding == inter_lane_padding,
    {
        ReifiedConfig { connection_trim, inter_lane_padding }
    }

    /// The default spacing: a trim of 10 units and a padding of 2.
    pub fn default_config() -> (r: ReifiedConfig)
        ensures
            r.connection_trim.0.0 == 10,
            r.inter_lane_padding.0.0 == 2,
    {
        ReifiedConfig {
            connection_trim: Trim(ReifiedUnit(10)),
            inter_lane_padding: DownLanePadding(ReifiedUnit(2)),
        }
    }
}

/// Errors of the drawing.
#[derive(Debug, Clone, Copy, PartialEq, Eq, Structural)]
pub enum ReifiedError {
    /// A task has no cell.
    TaskNotFound { task_id: TaskId },
    /// A dependency has no joint.
    DependencyNotFound { dependency_id: DependencyId },
    /// The drawing of the task does not fit in 16 bits, or its trim is
    /// longer than its extent.
    DoesNotFit { task_id: TaskId },
}

/// The drawing of `c` fits: its trim is no longer than its extent, and its
/// lane lies within 16 bits.
pub open spec fn cell_fits(c: Cell, config: ReifiedConfig) -> bool {
    &&& (scaled_end(c.stretch) as u16) >= config.connection_trim.0.0
    &&& lane_pitch(config.inter_lane_padding) * (c.lane.0 + 1) <= 65535
}

/// The middle of the lane of `c`, where its joints meet it, lies within 16 bits.
pub open spec fn mid_fits(c: Cell, config: ReifiedConfig) -> bool {
    lane_pitch(config.inter_lane_padding) * (2 * c.lane.0 + 1) <= 65535
}

/// Task `t` takes part in a dependency: an edge leads to it or from it.
pub open spec fn has_joint(g: Graph, t: TaskId) -> bool {
    crate::graph::has_incoming(g, t) || g.succs(t).len() > 0
}

/// The drawing of task `t`, with cell `c`, fits: the cell fits, and when
/// the task has joints, so does its lane's middle.
pub open spec fn task_fits(g: Graph, t: TaskId, c: Cell, config: ReifiedConfig) -> bool {
    cell_fits(c, config) && (has_joint(g, t) ==> mid_fits(c, config))
}

/// The drawing of `c` with `config`.
pub open spec fn down_cell_of(c: Cell, config: ReifiedConfig) -> DownCell {
    let pitch = lane_pitch(config.inter_lane_padding);
    DownCell {
        cell: c,
        down_lane: DownLane {
            lane_id: c.lane,
            padding: config.inter_lane_padding,
            range: DownLaneRange {
                start: ReifiedUnit((pitch * c.lane.0) as u16),
                end: ReifiedUnit((pitch * (c.lane.0 + 1)) as u16),
            },
        },
        down_stretch: DownStretch {
            stretch: c.stretch,
            trim: config.connection_trim,
            down_stretch: DownStretchRange {
                start: ReifiedUnit(scaled_start(c.stretch) as u16),
                end: ReifiedUnit(((scaled_end(c.stretch) as u16) - config.connection_trim.0.0) as u16),
            },
        },
    }
}

/// A drawing that fits has a lane middle within 16 bits.
pub proof fn lemma_fits_midpoint(c: Cell, config: ReifiedConfig)
    requires
        cell_fits(c, config),
        mid_fits(c, config),
    ensures
        down_cell_of(c, config).down_lane.range.start.0 + down_cell_of(c, config).down_lane.range.end.0 <= 65535,
{
    let p = lane_pitch(config.inter_lane_padding);
    let l = c.lane.0 as int;
    assert(p * l + p * (l + 1) == p * (2 * l + 1)) by (nonlinear_arith);
    assert(0 <= p * l <= p * (l + 1)) by (nonlinear_arith)
        requires p >= 0, l >= 0;
}

/// The joint of the edge from `d` to `t` between their drawings.
pub open spec fn joint_of(d: TaskId, t: TaskId, dc: DownCell, tc: DownCell) -> Joint {
    Joint {
        dependency: DependencyId { from: d, to: t },
        start: ConnectionPoint { x: dc.down_stretch.down_stretch.end, y: ReifiedUnit(lane_mid(dc.down_lane) as u16) },
        end: ConnectionPoint { x: tc.down_stretch.down_stretch.start, y: ReifiedUnit(lane_mid(tc.down_lane) as u16) },
    }
}

/// The drawings follow the cells of the grid, and there is one joint for
/// each edge between tasks of the grid, between their drawings.
pub open spec fn drawing_ok(grid: GridAlgebra, config: ReifiedConfig, cells: Map<TaskId, DownCell>, joints: Seq<Joint>) -> bool {
    let g = grid.spec_range_algebra().spec_graph();
    &&& forall|t: TaskId| #[trigger] cells.contains_key(t) <==> grid.cell_map().contains_key(t)
    &&& forall|t: TaskId| #[trigger] cells.contains_key(t) ==> cells[t] == down_cell_of(grid.cell_map()[t], config)
    &&& forall|i: int| 0 <= i < joints.len() ==> {
        let j = #[trigger] joints[i];
        &&& cells.contains_key(j.dependency.from)
        &&& cells.contains_key(j.dependency.to)
        &&& g.edge(j.dependency.from, j.dependency.to)
        &&& j == joint_of(j.dependency.from, j.dependency.to, cells[j.dependency.from], cells[j.dependency.to])
    }
    &&& forall|d: TaskId, t: TaskId| #[trigger] cells.contains_key(t) && #[trigger] g.edge(d, t)
        ==> exists|i: int| 0 <= i < joints.len() && (#[trigger] joints[i]).dependency == (DependencyId { from: d, to: t })
    &&& forall|i: int, k: int| 0 <= i < k < joints.len() ==> (#[trigger] joints[i]).dependency != (#[trigger] joints[k]).dependency
}

/// A grid prepared for drawing.
pub struct PreReified {
    grid: GridAlgebra,
    config: ReifiedConfig,
}

/// The drawing of a grid: a drawing of each task, a joint for each dependency.
pub struct Reified {
    grid: GridAlgebra,
    config: ReifiedConfig,
    down_cells: IdMap<DownCell>,
    joints: Vec<Joint>,
}

impl PreReified {
    /// The grid.
    pub closed spec fn spec_grid(&self) -> GridAlgebra {
        self.grid
    }

    /// The spacing.
    pub closed spec fn spec_config(&self) -> ReifiedConfig {
        self.config
    }

    /// Prepares the drawing of `grid` with the default spacing.
    pub fn new(grid: GridAlgebra) -> (r: PreReified)
        ensures
            r.spec_grid() == grid,
            r.spec_config() == ReifiedConfig::default_config_spec(),
    {
        PreReified { grid, config: ReifiedConfig::default_config() }
    }

    /// Prepares the drawing of `grid` with `config`.
    pub fn with_config(grid: GridAlgebra, config: ReifiedConfig) -> (r: PreReified)
        ensures
            r.spec_grid() == grid,
            r.spec_config() == config,
    {
        PreReified { grid, config }
    }

    /// Draws every task of the grid and a joint for every dependency
    /// between them: from the end of the dependency's drawing to the start
    /// of the dependent's, each at its lane's middle.
    pub fn compute(self) -> (r: Result<Reified, ReifiedError>)
        ensures
            r is Ok <==> forall|t: TaskId| #[trigger] self.spec_grid().cell_map().contains_key(t)
                ==> task_fits(self.spec_grid().spec_range_algebra().spec_graph(), t, self.spec_grid().cell_map()[t], self.spec_config()),
            r matches Err(e) ==> e matches ReifiedError::DoesNotFit { task_id } && self.spec_grid().cell_map().contains_key(task_id)
                && !task_fits(self.spec_grid().spec_range_algebra().spec_graph(), task_id, self.spec_grid().cell_map()[task_id], self.spec_config()),
            r matches Ok(re) ==> re.spec_grid() == self.spec_grid() && re.spec_config() == self.spec_config()
                && drawing_ok(self.spec_grid(), self.spec_config(), re.down_cell_map(), re.joint_seq()),
    {
        self.grid.check();
        let ghost grid = self.grid;
        let ghost ra = grid.spec_range_algebra();
        let ghost g = ra.spec_graph();
        self.grid.range_algebra().check();
        let config = self.config;
        let keys = self.grid.task_ids();
        let mut cells: IdMap<DownCell> = IdMap::new();
        let mut i: usize = 0;
        while i < keys.len()
            invariant
                i <= keys@.len(),
                keys@ == grid.cell_keys(),
                self.grid == grid,
                self.config == config,
                forall|t: TaskId| #[trigger] keys@.contains(t) <==> grid.cell_map().contains_key(t),
                strictly_increasing(keys@),
                forall|t: TaskId| #[trigger] cells@.contains_key(t) <==> keys@.subrange(0, i as int).contains(t),
                forall|t: TaskId| #[trigger] cells@.contains_key(t) ==> cells@[t] == down_cell_of(grid.cell_map()[t], config)
                    && task_fits(g, t, grid.cell_map()[t], config),
                forall|q: int| 0 <= q < i ==> task_fits(g, keys@[q], grid.cell_map()[#[trigger] keys@[q]], config),
                g == self.grid.spec_range_algebra().spec_graph(),
                g.wf(),
            decreases keys@.len() - i,
        {
            let t = keys[i];
            assert(keys@.contains(t));
            let cell = *self.grid.task_cell(t).unwrap();
            let trim = config.connection_trim.0.0;
            let pitch: u64 = 2 + config.inter_lane_padding.0.0 as u64;
            let lane: u64 = cell.lane.0 as u64;
            let (_, end) = cell.stretch.scale(cell.stretch.unit.down(1));
            proof {
                assert(pitch * (2 * lane + 1) <= 65537 * 511) by (nonlinear_arith)
                    requires pitch <= 65537, lane <= 255;
                assert(cell == grid.cell_map()[t]);
                assert(end == scaled_end(cell.stretch));
            }
            let into = self.grid.graph().get_dependencies(t);
            let from = self.grid.graph().get_dependents(t);
            let joined = into.len() > 0 || from.len() > 0;
            proof {
                assert(pitch * (lane + 1) <= pitch * (2 * lane + 1)) by (nonlinear_arith)
                    requires pitch >= 0, lane >= 0;
                if crate::graph::has_incoming(g, t) {
                    let u = choose|u: TaskId| #[trigger] g.edge(u, t);
                    assert(into@.contains(u));
                }
                if into@.len() > 0 {
                    assert(into@.contains(into@[0]));
                }
                assert(joined == has_joint(g, t));
            }
            if (end as u16) < trim || pitch * (lane + 1) > 65535 || (joined && pitch * (2 * lane + 1) > 65535) {
                proof {
                    assert(!task_fits(g, t, grid.cell_map()[t], config));
                    assert(grid.cell_map().contains_key(t));
                    assert(self.spec_grid().cell_map().contains_key(t));
                }
                return Err(ReifiedError::DoesNotFit { task_id: t });
            }
            proof {
                assert(task_fits(g, t, cell, config));
            }
            let down_stretch = DownStretch::canonical_from_stretch(cell.stretch, config.connection_trim);
            let down_lane = DownLane::canonical_from_lane(cell.lane, config.inter_lane_padding);
            let dc = DownCell::new(cell, down_lane, down_stretch);
            proof {
                assert(dc == down_cell_of(cell, config));
            }
            let _ = cells.insert(t, dc);
            proof {
                let s0 = keys@.subrange(0, i as int);
                let s1 = keys@.subrange(0, i + 1);
                assert(s1 == s0.push(t));
                assert forall|x: TaskId| #[trigger] cells@.contains_key(x) <==> s1.contains(x) by {
                    if s1.contains(x) && x != t {
                        let q = choose|q: int| 0 <= q < s1.len() && s1[q] == x;
                        assert(s0[q] == x);
                    }
                    if s0.contains(x) {
                        let q = choose|q: int| 0 <= q < s0.len() && s0[q] == x;
                        assert(s1[q] == x);
                    }
                    if x == t {
                        assert(s1[i as int] == x);
                    }
                }
            }
            i = i + 1;
        }
        proof {
            assert(keys@.subrange(0, keys@.len() as int) == keys@);
        }
        let graph = self.grid.graph();
        let mut joints: Vec<Joint> = Vec::new();
        let mut k: usize = 0;
        while k < keys.len()
            invariant
                k <= keys@.len(),
                keys@ == grid.cell_keys(),
                self.grid == grid,
                self.config == config,
                *graph == g,
                g.wf(),
                forall|t: TaskId| #[trigger] keys@.contains(t) <==> grid.cell_map().contains_key(t),
                strictly_increasing(keys@),
                forall|t: TaskId| #[trigger] cells@.contains_key(t) <==> grid.cell_map().contains_key(t),
                forall|t: TaskId| #[trigger] cells@.contains_key(t) ==> cells@[t] == down_cell_of(grid.cell_map()[t], config)
                    && task_fits(g, t, grid.cell_map()[t], config),
                forall|t: TaskId| #[trigger] g.has_task(t) <==> grid.cell_map().contains_key(t),
                forall|q: int| 0 <= q < joints@.len() ==> {
                    let j = #[trigger] joints@[q];
                    &&& cells@.contains_key(j.dependency.from)
                    &&& cells@.contains_key(j.dependency.to)
                    &&& g.edge(j.dependency.from, j.dependency.to)
                    &&& j == joint_of(j.dependency.from, j.dependency.to, cells@[j.dependency.from], cells@[j.dependency.to])
                    &&& keys@.subrange(0, k as int).contains(j.dependency.to)
                },
                forall|d: TaskId, t: TaskId| #[trigger] keys@.subrange(0, k as int).contains(t) && #[trigger] g.edge(d, t)
                    ==> exists|q: int| 0 <= q < joints@.len() && (#[trigger] joints@[q]).dependency == (DependencyId { from: d, to: t }),
                forall|a: int, b: int| 0 <= a < b < joints@.len() ==> (#[trigger] joints@[a]).dependency != (#[trigger] joints@[b]).dependency,
            decreases keys@.len() - k,
        {
            let t = keys[k];
            assert(keys@.contains(t));
            let deps = graph.get_dependencies(t);
            let tc = *cells.get(t).unwrap();
            let ghost j0 = joints@;
            let mut m: usize = 0;
            while m < deps.len()
                invariant
                    m <= deps@.len(),
                    g.wf(),
                    *graph == g,
                    strictly_increasing(deps@),
                    forall|u: TaskId| #[trigger] deps@.contains(u) <==> g.edge(u, t),
                    k < keys@.len(),
                    keys@[k as int] == t,
                    strictly_increasing(keys@),
                    cells@.contains_key(t),
                    tc == cells@[t],
                    forall|x: TaskId| #[trigger] cells@.contains_key(x) <==> grid.cell_map().contains_key(x),
                    forall|x: TaskId| #[trigger] cells@.contains_key(x) ==> cells@[x] == down_cell_of(grid.cell_map()[x], config)
                        && task_fits(g, x, grid.cell_map()[x], config),
                    forall|x: TaskId| #[trigger] g.has_task(x) <==> grid.cell_map().contains_key(x),
                    joints@.len() == j0.len() + m,
                    joints@.subrange(0, j0.len() as int) == j0,
                    forall|q: int| 0 <= q < m ==> (#[trigger] joints@[j0.len() + q]) == joint_of(deps@[q], t, cells@[deps@[q]], tc),
                decreases deps@.len() - m,
            {
                let d = deps[m];
                assert(deps@.contains(d));
                assert(g.has_task(d));
                let dc = *cells.get(d).unwrap();
                proof {
                    assert(g.edge(d, t));
                    assert(g.succs(d).contains(t));
                    assert(has_joint(g, d));
                    assert(has_joint(g, t));
                    lemma_fits_midpoint(grid.cell_map()[d], config);
                    lemma_fits_midpoint(grid.cell_map()[t], config);
                }
                let out = dc.outgoing_connection_point();
                let inc = tc.incoming_connection_point();
                let joint = Joint::flowing_joint(DependencyId::new(d, t), ConnectionPoint::new(out.0, out.1), ConnectionPoint::new(inc.0, inc.1));
                let ghost jb = joints@;
                joints.push(joint);
                proof {
                    assert(joints@.subrange(0, j0.len() as int) == jb.subrange(0, j0.len() as int));
                    assert forall|q: int| 0 <= q < m + 1 implies (#[trigger] joints@[j0.len() + q]) == joint_of(deps@[q], t, cells@[deps@[q]], tc) by {
                        if q < m {
                            assert(joints@[j0.len() + q] == jb[j0.len() + q]);
                        }
                    }
                }
                m = m + 1;
            }
            proof {
                let jn = joints@;
                let sk0 = keys@.subrange(0, k as int);
                let sk1 = keys@.subrange(0, k + 1);
                assert(sk1 == sk0.push(t));
                assert(!sk0.contains(t)) by {
                    if sk0.contains(t) {
                        let q = choose|q: int| 0 <= q < sk0.len() && sk0[q] == t;
                        assert(keys@[q].0 < keys@[k as int].0);
                    }
                }
                assert forall|q: int| 0 <= q < jn.len() implies {
                    let j = #[trigger] jn[q];
                    &&& cells@.contains_key(j.dependency.from)
                    &&& cells@.contains_key(j.dependency.to)
                    &&& g.edge(j.dependency.from, j.dependency.to)
                    &&& j == joint_of(j.dependency.from, j.dependency.to, cells@[j.dependency.from], cells@[j.dependency.to])
                    &&& sk1.contains(j.dependency.to)
                } by {
                    if q < j0.len() {
                        assert(jn[q] == j0[q]);
                        let x = j0[q].dependency.to;
                        let w = choose|w: int| 0 <= w < sk0.len() && sk0[w] == x;
                        assert(sk1[w] == x);
                    } else {
                        let r = q - j0.len();
                        assert(jn[j0.len() + r] == joint_of(deps@[r], t, cells@[deps@[r]], tc));
                        assert(deps@.contains(deps@[r]));
                        assert(sk1[k as int] == t);
                    }
                }
                assert forall|d: TaskId, x: TaskId| #[trigger] sk1.contains(x) && #[trigger] g.edge(d, x)
                    implies exists|q: int| 0 <= q < jn.len() && (#[trigger] jn[q]).dependency == (DependencyId { from: d, to: x }) by {
                    if x == t {
                        assert(deps@.contains(d));
                        let r = choose|r: int| 0 <= r < deps@.len() && deps@[r] == d;
                        assert(jn[j0.len() + r].dependency == (DependencyId { from: d, to: x }));
                    } else {
                        let w = choose|w: int| 0 <= w < sk1.len() && sk1[w] == x;
                        assert(sk0[w] == x);
                        assert(sk0.contains(x));
                        let q = choose|q: int| 0 <= q < j0.len() && (#[trigger] j0[q]).dependency == (DependencyId { from: d, to: x });
                        assert(jn[q] == j0[q]);
                    }
                }
                assert forall|a: int, b: int| 0 <= a < b < jn.len() implies (#[trigger] jn[a]).dependency != (#[trigger] jn[b]).dependency by {
                    if b < j0.len() {
                        assert(jn[a] == j0[a] && jn[b] == j0[b]);
                    } else if a < j0.len() {
                        assert(jn[a] == j0[a]);
                        assert(sk0.contains(j0[a].dependency.to));
                        let rb = b - j0.len();
                        assert(jn[j0.len() + rb] == joint_of(deps@[rb], t, cells@[deps@[rb]], tc));
                        assert(jn[b].dependency.to == t);
                    } else {
                        let ra2 = a - j0.len();
                        let rb = b - j0.len();
                        assert(jn[j0.len() + ra2] == joint_of(deps@[ra2], t, cells@[deps@[ra2]], tc));
                        assert(jn[j0.len() + rb] == joint_of(deps@[rb], t, cells@[deps@[rb]], tc));
                        assert(jn[a].dependency.from == deps@[ra2]);
                        assert(jn[b].dependency.from == deps@[rb]);
                        assert(deps@[ra2].0 < deps@[rb].0);
                    }
                }
            }
            k = k + 1;
        }
        proof {
            assert(keys@.subrange(0, keys@.len() as int) == keys@);
            assert forall|d: TaskId, t: TaskId| #[trigger] cells@.contains_key(t) && #[trigger] g.edge(d, t)
                implies exists|q: int| 0 <= q < joints@.len() && (#[trigger] joints@[q]).dependency == (DependencyId { from: d, to: t }) by {
                assert(keys@.contains(t));
            }
            assert forall|t: TaskId| #[trigger] grid.cell_map().contains_key(t) implies task_fits(g, t, grid.cell_map()[t], config) by {
                assert(cells@.contains_key(t));
            }
        }
        Ok(Reified { grid: self.grid, config, down_cells: cells, joints })
    }
}

/// The largest end of the horizontal extents among `ks`.
pub open spec fn max_stretch_end(cells: Map<TaskId, DownCell>, ks: Seq<TaskId>) -> u16
    decreases ks.len(),
{
    if ks.len() == 0 {
        0
    } else {
        let rest = max_stretch_end(cells, ks.drop_last());
        let here = cells[ks.last()].down_stretch.down_stretch.end.0;
        if here > rest { here } else { rest }
    }
}

/// The largest end of the lane extents among `ks`.
pub open spec fn max_lane_end(cells: Map<TaskId, DownCell>, ks: Seq<TaskId>) -> u16
    decreases ks.len(),
{
    if ks.len() == 0 {
        0
    } else {
        let rest = max_lane_end(cells, ks.drop_last());
        let here = cells[ks.last()].down_lane.range.end.0;
        if here > rest { here } else { rest }
    }
}

/// The bounds of a drawing are the largest extent ends: no drawn cell's
/// horizontal extent ends past the first bound, nor its lane extent past the
/// second; each bound is the end of some cell's extent; both are 0 with no
/// cell.
pub open spec fn bounds_of(cells: Map<TaskId, DownCell>, x: u16, y: u16) -> bool {
    &&& forall|t: TaskId| #[trigger] cells.contains_key(t) ==> cells[t].down_stretch.down_stretch.end.0 <= x
        && cells[t].down_lane.range.end.0 <= y
    &&& (exists|t: TaskId| #[trigger] cells.contains_key(t)) ==> (exists|t: TaskId| #[trigger] cells.contains_key(t)
        && cells[t].down_stretch.down_stretch.end.0 == x)
    &&& (exists|t: TaskId| #[trigger] cells.contains_key(t)) ==> (exists|t: TaskId| #[trigger] cells.contains_key(t)
        && cells[t].down_lane.range.end.0 == y)
    &&& (forall|t: TaskId| !(#[trigger] cells.contains_key(t))) ==> x == 0 && y == 0
}

/// The largest extent ends over a list of the drawn tasks are the bounds of
/// the drawing when the list holds exactly the drawn tasks.
pub proof fn lemma_bounds(cells: Map<TaskId, DownCell>, ks: Seq<TaskId>)
    requires
        forall|t: TaskId| #[trigger] ks.contains(t) <==> cells.contains_key(t),
    ensures
        bounds_of(cells, max_stretch_end(cells, ks), max_lane_end(cells, ks)),
{
    lemma_max_ends(cells, ks);
    let x = max_stretch_end(cells, ks);
    let y = max_lane_end(cells, ks);
    assert forall|t: TaskId| #[trigger] cells.contains_key(t) implies cells[t].down_stretch.down_stretch.end.0 <= x
        && cells[t].down_lane.range.end.0 <= y by {
        assert(ks.contains(t));
        let i = choose|i: int| 0 <= i < ks.len() && ks[i] == t;
    }
    if exists|t: TaskId| #[trigger] cells.contains_key(t) {
        let t = choose|t: TaskId| #[trigger] cells.contains_key(t);
        assert(ks.contains(t));
        assert(ks.len() > 0);
        let i = choose|i: int| 0 <= i < ks.len() && cells[ks[i]].down_stretch.down_stretch.end.0 == x;
        assert(ks.contains(ks[i]));
        let j = choose|j: int| 0 <= j < ks.len() && cells[ks[j]].down_lane.range.end.0 == y;
        assert(ks.contains(ks[j]));
    }
    if forall|t: TaskId| !(#[trigger] cells.contains_key(t)) {
        if ks.len() > 0 {
            assert(ks.contains(ks[0]));
        }
    }
}

/// The largest extent ends over `ks` are at least each one's, and are some
/// one's when `ks` is not empty.
proof fn lemma_max_ends(cells: Map<TaskId, DownCell>, ks: Seq<TaskId>)
    ensures
        forall|i: int| 0 <= i < ks.len() ==> cells[#[trigger] ks[i]].down_stretch.down_stretch.end.0 <= max_stretch_end(cells, ks)
            && cells[ks[i]].down_lane.range.end.0 <= max_lane_end(cells, ks),
        ks.len() > 0 ==> exists|i: int| 0 <= i < ks.len() && cells[ks[i]].down_stretch.down_stretch.end.0 == max_stretch_end(cells, ks),
        ks.len() > 0 ==> exists|j: int| 0 <= j < ks.len() && cells[ks[j]].down_lane.range.end.0 == max_lane_end(cells, ks),
        ks.len() == 0 ==> max_stretch_end(cells, ks) == 0 && max_lane_end(cells, ks) == 0,
    decreases ks.len(),
{
    if ks.len() > 0 {
        let rest = ks.drop_last();
        lemma_max_ends(cells, rest);
        assert forall|i: int| 0 <= i < ks.len() implies cells[#[trigger] ks[i]].down_stretch.down_stretch.end.0 <= max_stretch_end(cells, ks)
            && cells[ks[i]].down_lane.range.end.0 <= max_lane_end(cells, ks) by {
            if i < ks.len() - 1 {
                assert(ks[i] == rest[i]);
            }
        }
        let n = ks.len() - 1;
        if max_stretch_end(cells, ks) == cells[ks[n]].down_stretch.down_stretch.end.0 {
        } else {
            let i = choose|i: int| 0 <= i < rest.len() && cells[rest[i]].down_stretch.down_stretch.end.0 == max_stretch_end(cells, rest);
            assert(ks[i] == rest[i]);
        }
        if max_lane_end(cells, ks) == cells[ks[n]].down_lane.range.end.0 {
        } else {
            let j = choose|j: int| 0 <= j < rest.len() && cells[rest[j]].down_lane.range.end.0 == max_lane_end(cells, rest);
            assert(ks[j] == rest[j]);
        }
    }
}

impl Reified {
    /// The grid drawn.
    pub closed spec fn spec_grid(&self) -> GridAlgebra {
        self.grid
    }

    /// The spacing.
    pub closed spec fn spec_config(&self) -> ReifiedConfig {
        self.config
    }

    /// The drawings of the tasks.
    pub closed spec fn down_cell_map(&self) -> Map<TaskId, DownCell> {
        self.down_cells@
    }

    /// The tasks drawn, in increasing order.
    pub closed spec fn down_cell_keys(&self) -> Seq<TaskId> {
        self.down_cells.key_seq()
    }

    /// The joints.
    pub closed spec fn joint_seq(&self) -> Seq<Joint> {
        self.joints@
    }

    /// The grid drawn.
    pub fn grid(&self) -> (r: &GridAlgebra)
        ensures
            *r == self.spec_grid(),
    {
        &self.grid
    }

    /// The spacing.
    pub fn config(&self) -> (r: &ReifiedConfig)
        ensures
            *r == self.spec_config(),
    {
        &self.config
    }

    /// The drawings of the tasks.
    pub fn down_cells(&self) -> (r: &IdMap<DownCell>)
        ensures
            r@ == self.down_cell_map(),
            r.key_seq() == self.down_cell_keys(),
    {
        &self.down_cells
    }

    /// The joints.
    pub fn joints(&self) -> (r: &Vec<Joint>)
        ensures
            r@ == self.joint_seq(),
    {
        &self.joints
    }

    /// The drawing of `task_id`, if it has one.
    pub fn get_down_cell(&self, task_id: TaskId) -> (r: Option<&DownCell>)
        ensures
            r matches Some(c) ==> self.down_cell_map().contains_key(task_id) && *c == self.down_cell_map()[task_id],
            r is None ==> !self.down_cell_map().contains_key(task_id),
    {
        self.down_cells.get(task_id)
    }

    /// The joint of `dependency_id`, if there is one.
    pub fn get_joint(&self, dependency_id: DependencyId) -> (r: Option<&Joint>)
        ensures
            r matches Some(j) ==> j.dependency == dependency_id && self.joint_seq().contains(*j),
            r is None ==> forall|i: int| 0 <= i < self.joint_seq().len() ==> (#[trigger] self.joint_seq()[i]).dependency != dependency_id,
    {
        let mut i: usize = 0;
        while i < self.joints.len()
            invariant
                i <= self.joints@.len(),
                forall|q: int| 0 <= q < i ==> (#[trigger] self.joints@[q]).dependency != dependency_id,
            decreases self.joints@.len() - i,
        {
            if self.joints[i].dependency == dependency_id {
                assert(self.joints@.contains(self.joints@[i as int]));
                return Some(&self.joints[i]);
            }
            i = i + 1;
        }
        None
    }

    /// The tasks with their drawings, in increasing order of task.
    pub fn task_bounds(&self) -> (r: Vec<(TaskId, DownCell)>)
        ensures
            r@.len() == self.down_cell_keys().len(),
            forall|i: int| 0 <= i < r@.len() ==> (#[trigger] r@[i]).0 == self.down_cell_keys()[i]
                && r@[i].1 == self.down_cell_map()[r@[i].0],
    {
        proof { self.down_cells.lemma_key_seq(); }
        let keys = self.down_cells.keys();
        let mut out: Vec<(TaskId, DownCell)> = Vec::new();
        let mut i: usize = 0;
        while i < keys.len()
            invariant
                i <= keys@.len(),
                keys@ == self.down_cells.key_seq(),
                forall|t: TaskId| #[trigger] keys@.contains(t) <==> self.down_cells@.contains_key(t),
                out@.len() == i,
                forall|q: int| 0 <= q < i ==> (#[trigger] out@[q]).0 == keys@[q] && out@[q].1 == self.down_cells@[keys@[q]],
            decreases keys@.len() - i,
        {
            let t = keys[i];
            assert(keys@.contains(t));
            let c = *self.down_cells.get(t).unwrap();
            out.push((t, c));
            i = i + 1;
        }
        out
    }

    /// The joints, one for each dependency.
    pub fn connections(&self) -> (r: &Vec<Joint>)
        ensures
            r@ == self.joint_seq(),
    {
        &self.joints
    }

    /// The extent of the drawing: the largest end of a horizontal extent and
    /// of a lane extent, 0 when nothing is drawn.
    pub fn visual_bounds(&self) -> (r: (ReifiedUnit, ReifiedUnit))
        ensures
            r.0.0 == max_stretch_end(self.down_cell_map(), self.down_cell_keys()),
            r.1.0 == max_lane_end(self.down_cell_map(), self.down_cell_keys()),
            bounds_of(self.down_cell_map(), r.0.0, r.1.0),
    {
        proof {
            self.down_cells.lemma_key_seq();
            lemma_bounds(self.down_cells@, self.down_cells.key_seq());
        }
        let keys = self.down_cells.keys();
        let mut mx: u16 = 0;
        let mut my: u16 = 0;
        let mut i: usize = 0;
        while i < keys.len()
            invariant
                i <= keys@.len(),
                keys@ == self.down_cells.key_seq(),
                forall|t: TaskId| #[trigger] keys@.contains(t) <==> self.down_cells@.contains_key(t),
                mx == max_stretch_end(self.down_cells@, keys@.subrange(0, i as int)),
                my == max_lane_end(self.down_cells@, keys@.subrange(0, i as int)),
            decreases keys@.len() - i,
        {
            let t = keys[i];
            assert(keys@.contains(t));
            let c = *self.down_cells.get(t).unwrap();
            proof {
                assert(keys@.subrange(0, i + 1).drop_last() == keys@.subrange(0, i as int));
            }
            if c.down_stretch.down_stretch.end.0 > mx {
                mx = c.down_stretch.down_stretch.end.0;
            }
            if c.down_lane.range.end.0 > my {
                my = c.down_lane.range.end.0;
            }
            i = i + 1;
        }
        proof {
            assert(keys@.subrange(0, keys@.len() as int) == keys@);
        }
        (ReifiedUnit(mx), ReifiedUnit(my))
    }

    /// The number of tasks drawn.
    pub fn task_count(&self) -> (r: usize)
        ensures
            r == self.down_cell_keys().len(),
    {
        self.down_cells.len()
    }

    /// The number of joints.
    pub fn connection_count(&self) -> (r: usize)
        ensures
            r == self.joint_seq().len(),
    {
        self.joints.len()
    }
}

impl ReifiedConfig {
    /// The default spacing.
    pub open spec fn default_config_spec() -> ReifiedConfig {
        ReifiedConfig { connection_trim: Trim(ReifiedUnit(10)), inter_lane_padding: DownLanePadding(ReifiedUnit(2)) }
    }
}

} // verus!
