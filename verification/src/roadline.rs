use vstd::prelude::*;

use crate::analysis::{cycle_cover, has_cycle, is_topo_order};
use crate::graph::{Graph, GraphError, Predicate};
use crate::grid_algebra::{all_start_in_grid, grid_ok, grid_unit, lanes_laid_out, start_error, GridAlgebra, GridAlgebraError, PreGridAlgebra};
use crate::ids::{DependencyId, TaskId};
use crate::range_algebra::{is_cycle_error, outcome, schedule_holds, PreRangeAlgebra, RangeAlgebra, RangeAlgebraError};
use crate::reified::{
    drawing_ok, task_fits, ConnectionPoint, DownCell, DownLanePadding, Joint, PreReified, Reified, ReifiedConfig, ReifiedError,
    ReifiedUnit, Trim,
};
use crate::task::Task;
use crate::fragment::{decimal, decimal_string};
use crate::time::Date;

verus! {

/// The instant, in seconds and nanoseconds since the epoch, that an RFC 3339
/// text denotes, when it denotes one.
pub uninterp spec fn rfc3339_instant(text: Seq<char>) -> Option<(i64, u32)>;

/// Whether a year of the proleptic Gregorian calendar is a leap year.
pub open spec fn is_leap_year(y: int) -> bool {
    (y % 4 == 0 && y % 100 != 0) || y % 400 == 0
}

/// The number of days of month `m` of year `y`.
pub open spec fn days_in_month(y: int, m: int) -> int {
    if m == 2 {
        if is_leap_year(y) { 29 } else { 28 }
    } else if m == 4 || m == 6 || m == 9 || m == 11 {
        30
    } else {
        31
    }
}

/// The number of days from 1970-01-01 to the given day of the proleptic
/// Gregorian calendar (negative before it).
pub open spec fn days_from_civil(y: int, m: int, d: int) -> int {
    let yy = if m <= 2 { y - 1 } else { y };
    let era = yy / 400;
    let yoe = yy - era * 400;
    let mp = if m > 2 { m - 3 } else { m + 9 };
    let doy = (153 * mp + 2) / 5 + d - 1;
    let doe = yoe * 365 + yoe / 4 - yoe / 100 + doy;
    era * 146097 + doe - 719468
}

/// The first second of a calendar day, in seconds since the epoch, when the
/// year, month and day name an existing day that chrono can hold (years
/// -262143 to 262142).
pub open spec fn ymd_midnight(year: i32, month: u32, day: u32) -> Option<i64> {
    if -262143 <= year <= 262142 && 1 <= month <= 12 && 1 <= day <= days_in_month(year as int, month as int) {
        Some((days_from_civil(year as int, month as int, day as int) * 86400) as i64)
    } else {
        None
    }
}

/// Parses `text` as RFC 3339 with `chrono::DateTime::parse_from_rfc3339` and
/// converts it to UTC. Claims that the instant is the one named by
/// `rfc3339_instant` and that a text without one is refused; the refusal
/// carries chrono's description of the parse error, of which nothing is
/// claimed.
#[verifier::external_body]
fn parse_rfc3339(text: &str) -> (r: Result<(i64, u32), String>)
    ensures
        r matches Ok(v) ==> rfc3339_instant(text@) == Some(v),
        r is Err ==> rfc3339_instant(text@) is None,
{
    match chrono::DateTime::parse_from_rfc3339(text) {
        Ok(dt) => {
            let utc = dt.with_timezone(&chrono::Utc);
            Ok((utc.timestamp(), utc.timestamp_subsec_nanos()))
        },
        Err(e) => Err(e.to_string()),
    }
}

/// Looks the day up with `chrono::NaiveDate::from_ymd_opt` and takes its
/// midnight in UTC. Claims what chrono documents and its source shows: a day
/// that exists in the proleptic Gregorian calendar, in the years chrono can
/// hold, gives the seconds from the epoch to its midnight (`ymd_midnight`);
/// any other input gives nothing.
#[verifier::external_body]
fn midnight_utc(year: i32, month: u32, day: u32) -> (r: Option<i64>)
    ensures
        r == ymd_midnight(year, month, day),
{
    match chrono::NaiveDate::from_ymd_opt(year, month, day) {
        Some(d) => Some(d.and_time(chrono::NaiveTime::MIN).and_utc().timestamp()),
        None => None,
    }
}

/// The decimal digits of `n`, with a leading `-` when it is negative.
pub open spec fn signed_decimal(n: int) -> Seq<char> {
    if n < 0 {
        seq!['-'] + decimal((-n) as nat)
    } else {
        decimal(n as nat)
    }
}

/// The decimal digits of `n`, with a leading `0` when there is only one.
pub open spec fn two_digits(n: nat) -> Seq<char> {
    if n < 10 {
        seq!['0'] + decimal(n)
    } else {
        decimal(n)
    }
}

/// The message for a text that is not RFC 3339: the text quoted, then the
/// parser's reason.
pub open spec fn parse_failure_message(text: Seq<char>, reason: Seq<char>) -> Seq<char> {
    "Failed to parse '"@ + text + "': "@ + reason
}

/// The message for a day that does not exist: `year-month-day`, month and
/// day on two digits.
pub open spec fn invalid_date_message(year: i32, month: u32, day: u32) -> Seq<char> {
    "Invalid date "@ + signed_decimal(year as int) + "-"@ + two_digits(month as nat) + "-"@ + two_digits(day as nat)
}

/// The decimal digits of `n`, with a leading `-` when it is negative.
fn signed_decimal_string(n: i32) -> (r: String)
    ensures
        r@ == signed_decimal(n as int),
{
    let wide: i64 = n as i64;
    if wide < 0 {
        let m: i64 = -wide;
        let digits = decimal_string(m as usize);
        let out = String::from_str("-").concat(digits.as_str());
        proof {
            reveal_strlit("-");
            assert(out@ =~= seq!['-'] + decimal((-(n as int)) as nat));
        }
        out
    } else {
        decimal_string(wide as usize)
    }
}

/// The decimal digits of `n`, with a leading `0` when there is only one.
fn two_digit_string(n: u32) -> (r: String)
    ensures
        r@ == two_digits(n as nat),
{
    let digits = decimal_string(n as usize);
    if n < 10 {
        let out = String::from_str("0").concat(digits.as_str());
        proof {
            reveal_strlit("0");
            assert(out@ =~= seq!['0'] + decimal(n as nat));
        }
        out
    } else {
        digits
    }
}

/// Errors of building a roadline.
#[derive(Debug)]
pub enum RoadlineBuilderError {
    /// A task is already part of the graph.
    TaskAlreadyExists { task_id: TaskId },
    /// A task depends on itself.
    CircularDependency { task_id: TaskId },
    /// A dependency leads to a task that does not exist.
    InvalidDependency { from: TaskId, to: TaskId },
    /// The graph has cycles.
    GraphHasCycles { cycles: Vec<Vec<TaskId>> },
    /// A dependency ends after its dependent starts.
    DependencyConstraintViolated { task_id: TaskId, dependency: TaskId },
    /// A task has no data or no span.
    TaskNotFoundInRange { task_id: TaskId },
    /// Several tasks could not be placed; the errors, in order.
    MultipleRangeErrors { error_count: usize, errors: Vec<RangeAlgebraError> },
    /// There is nothing to lay out.
    NoTasksInRange,
    /// No unit could be chosen for the grid.
    TimeScaleDeterminationFailed,
    /// A task received no lane.
    LaneAssignmentFailed { task_id: TaskId },
    /// Another error of the range algebra.
    RangeFailed { range_error: RangeAlgebraError },
    /// Another error of the grid algebra.
    GridFailed { grid_error: GridAlgebraError },
    /// An error of the graph.
    GraphFailed { graph_error: GraphError },
    /// A task has no drawing.
    TaskNotFoundInReified { task_id: TaskId },
    /// A dependency has no joint.
    DependencyNotFoundInReified { dependency_id: DependencyId },
    /// A drawing does not fit.
    DrawingFailed { reified_error: ReifiedError },
    /// A date could not be read.
    DateParsing { message: String },
    /// No task was given.
    NoTasks,
}

/// How a range algebra error is reported by the builder.
pub open spec fn reports_range_error(b: RoadlineBuilderError, e: RangeAlgebraError) -> bool {
    match e {
        RangeAlgebraError::Graph(g) => b == (RoadlineBuilderError::GraphFailed { graph_error: g }),
        RangeAlgebraError::TaskNotFound { task_id } => b == (RoadlineBuilderError::TaskNotFoundInRange { task_id }),
        RangeAlgebraError::TooEarlyForDependency { task_id, dependency_id } =>
            b == (RoadlineBuilderError::DependencyConstraintViolated { task_id, dependency: dependency_id }),
        RangeAlgebraError::NoRootTasks => b is NoTasksInRange,
        RangeAlgebraError::Multiple { errors } => b matches RoadlineBuilderError::MultipleRangeErrors { error_count, errors: es }
            && error_count == errors@.len() && es == errors,
        RangeAlgebraError::GraphHasCycles { cycles } => b matches RoadlineBuilderError::GraphHasCycles { cycles: cs } && cs == cycles,
        _ => b matches RoadlineBuilderError::RangeFailed { range_error } && range_error == e,
    }
}

/// How a grid algebra error is reported by the builder.
pub open spec fn reports_grid_error(b: RoadlineBuilderError, e: GridAlgebraError) -> bool {
    match e {
        GridAlgebraError::TaskNotFound { task_id } => b == (RoadlineBuilderError::TaskNotFoundInRange { task_id }),
        GridAlgebraError::NoTasks => b is NoTasksInRange,
        GridAlgebraError::LaneAssignmentFailed { task_id } => b == (RoadlineBuilderError::LaneAssignmentFailed { task_id }),
        GridAlgebraError::InvalidTimeRange { .. } => b == (RoadlineBuilderError::GridFailed { grid_error: e }),
    }
}

/// How a drawing error is reported by the builder.
pub open spec fn reports_reified_error(b: RoadlineBuilderError, e: ReifiedError) -> bool {
    match e {
        ReifiedError::TaskNotFound { task_id } => b == (RoadlineBuilderError::TaskNotFoundInReified { task_id }),
        ReifiedError::DependencyNotFound { dependency_id } => b == (RoadlineBuilderError::DependencyNotFoundInReified { dependency_id }),
        ReifiedError::DoesNotFit { .. } => b == (RoadlineBuilderError::DrawingFailed { reified_error: e }),
    }
}

/// What placing the tasks of `g` in time from `root` may give, as
/// `PreRangeAlgebra::compute` states it.
pub open spec fn range_stage(g: Graph, root: Date, rr: Result<RangeAlgebra, RangeAlgebraError>) -> bool {
    &&& (has_cycle(g) <==> is_cycle_error(rr))
    &&& (rr matches Err(RangeAlgebraError::GraphHasCycles { cycles }) ==> cycles@.len() > 0 && cycle_cover(g, cycles@))
    &&& (!has_cycle(g) ==> exists|o: Seq<TaskId>| is_topo_order(g, o) && #[trigger] outcome(g, root, o, rr))
    &&& (rr matches Ok(ra) ==> ra.spec_graph() == g && schedule_holds(g, root, ra.span_map()))
}

/// What laying out the placed tasks on the grid and drawing them with
/// `config` gives: no tasks, a task that starts at the grid's last unit, or
/// a grid whose drawing fits exactly when every cell fits.
pub open spec fn layout_stage(ra: RangeAlgebra, config: ReifiedConfig, r: Result<Roadline, RoadlineBuilderError>) -> bool {
    let unit = grid_unit(ra.span_map(), ra.span_keys());
    if ra.span_keys().len() == 0 {
        r matches Err(e) && e is NoTasksInRange
    } else if !all_start_in_grid(ra, unit) {
        exists|ge: GridAlgebraError| #[trigger] start_error(ra, unit, ge) && r == Err::<Roadline, RoadlineBuilderError>(
            RoadlineBuilderError::GridFailed { grid_error: ge })
    } else {
        exists|ga: GridAlgebra| #[trigger] grid_ok(ga, ra) && lanes_laid_out(ga) && {
            &&& (r is Ok <==> forall|t: TaskId| #[trigger] ga.cell_map().contains_key(t) ==> task_fits(ra.spec_graph(), t, ga.cell_map()[t], config))
            &&& (r matches Err(e) ==> exists|t: TaskId| #[trigger] ga.cell_map().contains_key(t)
                && !task_fits(ra.spec_graph(), t, ga.cell_map()[t], config)
                && e == (RoadlineBuilderError::DrawingFailed { reified_error: ReifiedError::DoesNotFit { task_id: t } }))
            &&& (r matches Ok(rl) ==> rl.spec_reified().spec_grid() == ga && rl.spec_reified().spec_config() == config
                && drawing_ok(ga, config, rl.spec_reified().down_cell_map(), rl.spec_reified().joint_seq()))
        }
    }
}

/// A grid error, reported by the builder, is what the layout stage gives.
proof fn lemma_layout_grid_error(ra: RangeAlgebra, config: ReifiedConfig, e: GridAlgebraError, b: RoadlineBuilderError)
    requires
        ra.span_keys().len() == 0 <==> e == GridAlgebraError::NoTasks,
        ra.span_keys().len() > 0 ==> (e is InvalidTimeRange <==> !all_start_in_grid(ra, grid_unit(ra.span_map(), ra.span_keys()))),
        e is InvalidTimeRange ==> start_error(ra, grid_unit(ra.span_map(), ra.span_keys()), e),
        ra.span_keys().len() > 0 ==> !all_start_in_grid(ra, grid_unit(ra.span_map(), ra.span_keys())),
        reports_grid_error(b, e),
    ensures
        layout_stage(ra, config, Err(b)),
{
    if ra.span_keys().len() > 0 {
        let unit = grid_unit(ra.span_map(), ra.span_keys());
        assert(start_error(ra, unit, e) && Err::<Roadline, RoadlineBuilderError>(b) == Err::<Roadline, RoadlineBuilderError>(
            RoadlineBuilderError::GridFailed { grid_error: e }));
    }
}

/// The drawing of a grid, reported by the builder, is what the layout
/// stage gives.
proof fn lemma_layout_drawing(ra: RangeAlgebra, config: ReifiedConfig, ga: GridAlgebra, r: Result<Roadline, RoadlineBuilderError>)
    requires
        ra.span_keys().len() > 0,
        all_start_in_grid(ra, grid_unit(ra.span_map(), ra.span_keys())),
        grid_ok(ga, ra),
        lanes_laid_out(ga),
        r is Ok <==> forall|t: TaskId| #[trigger] ga.cell_map().contains_key(t) ==> task_fits(ra.spec_graph(), t, ga.cell_map()[t], config),
        r matches Err(e) ==> exists|t: TaskId| #[trigger] ga.cell_map().contains_key(t)
            && !task_fits(ra.spec_graph(), t, ga.cell_map()[t], config)
            && e == (RoadlineBuilderError::DrawingFailed { reified_error: ReifiedError::DoesNotFit { task_id: t } }),
        r matches Ok(rl) ==> rl.spec_reified().spec_grid() == ga && rl.spec_reified().spec_config() == config
            && drawing_ok(ga, config, rl.spec_reified().down_cell_map(), rl.spec_reified().joint_seq()),
    ensures
        layout_stage(ra, config, r),
{
}

/// The tasks stored after adding `ts` in turn to those of `m`: a later
/// task replaces an earlier one with its identifier.
pub open spec fn tasks_added(m: Map<TaskId, Task>, ts: Seq<Task>) -> Map<TaskId, Task>
    decreases ts.len(),
{
    if ts.len() == 0 {
        m
    } else {
        tasks_added(m, ts.drop_last()).insert(ts.last().spec_id(), ts.last())
    }
}

/// The predicates of `t` after adding `ts` in turn to `p`: each task that
/// depends on `t` adds the predicate of its edge from `t`.
pub open spec fn preds_added(p: Seq<Predicate>, t: TaskId, ts: Seq<Task>) -> Seq<Predicate>
    decreases ts.len(),
{
    if ts.len() == 0 {
        p
    } else {
        let q = preds_added(p, t, ts.drop_last());
        if ts.last().deps().contains(t) {
            q.push(crate::graph::edge_predicate(t, ts.last().spec_id()))
        } else {
            q
        }
    }
}

/// `t` is one of the tasks `ts`, or one of their dependencies.
pub open spec fn touched_by(t: TaskId, ts: Seq<Task>) -> bool
    decreases ts.len(),
{
    if ts.len() == 0 {
        false
    } else {
        touched_by(t, ts.drop_last()) || ts.last().deps().contains(t) || t == ts.last().spec_id()
    }
}

/// Every task added is stored.
proof fn lemma_tasks_added_keys(m: Map<TaskId, Task>, ts: Seq<Task>)
    ensures
        forall|i: int| 0 <= i < ts.len() ==> #[trigger] tasks_added(m, ts).contains_key(ts[i].spec_id()),
    decreases ts.len(),
{
    if ts.len() > 0 {
        lemma_tasks_added_keys(m, ts.drop_last());
        assert forall|i: int| 0 <= i < ts.len() implies #[trigger] tasks_added(m, ts).contains_key(ts[i].spec_id()) by {
            if i < ts.len() - 1 {
                assert(ts.drop_last()[i] == ts[i]);
                assert(tasks_added(m, ts.drop_last()).contains_key(ts.drop_last()[i].spec_id()));
            }
        }
    }
}

impl RoadlineBuilderError {
    /// The report of a graph error.
    fn from_graph_error(error: GraphError) -> (r: RoadlineBuilderError)
        ensures
            r == (RoadlineBuilderError::GraphFailed { graph_error: error }),
    {
        RoadlineBuilderError::GraphFailed { graph_error: error }
    }

    /// The report of a range algebra error.
    fn from_range_algebra_error(error: RangeAlgebraError) -> (r: RoadlineBuilderError)
        ensures
            reports_range_error(r, error),
    {
        match error {
            RangeAlgebraError::Graph(g) => RoadlineBuilderError::from_graph_error(g),
            RangeAlgebraError::TaskNotFound { task_id } => RoadlineBuilderError::TaskNotFoundInRange { task_id },
            RangeAlgebraError::TooEarlyForDependency { task_id, dependency_id } =>
                RoadlineBuilderError::DependencyConstraintViolated { task_id, dependency: dependency_id },
            RangeAlgebraError::NoRootTasks => RoadlineBuilderError::NoTasksInRange,
            RangeAlgebraError::Multiple { errors } => {
                let error_count = errors.len();
                RoadlineBuilderError::MultipleRangeErrors { error_count, errors }
            },
            RangeAlgebraError::GraphHasCycles { cycles } => RoadlineBuilderError::GraphHasCycles { cycles },
            other => RoadlineBuilderError::RangeFailed { range_error: other },
        }
    }

    /// The report of a grid algebra error.
    fn from_grid_algebra_error(error: GridAlgebraError) -> (r: RoadlineBuilderError)
        ensures
            reports_grid_error(r, error),
    {
        match error {
            GridAlgebraError::TaskNotFound { task_id } => RoadlineBuilderError::TaskNotFoundInRange { task_id },
            GridAlgebraError::NoTasks => RoadlineBuilderError::NoTasksInRange,
            GridAlgebraError::LaneAssignmentFailed { task_id } => RoadlineBuilderError::LaneAssignmentFailed { task_id },
            GridAlgebraError::InvalidTimeRange { .. } => RoadlineBuilderError::GridFailed { grid_error: error },
        }
    }

    /// The report of a drawing error.
    fn from_reified_error(error: ReifiedError) -> (r: RoadlineBuilderError)
        ensures
            reports_reified_error(r, error),
    {
        match error {
            ReifiedError::TaskNotFound { task_id } => RoadlineBuilderError::TaskNotFoundInReified { task_id },
            ReifiedError::DependencyNotFound { dependency_id } => RoadlineBuilderError::DependencyNotFoundInReified { dependency_id },
            ReifiedError::DoesNotFit { .. } => RoadlineBuilderError::DrawingFailed { reified_error: error },
        }
    }
}

/// A summary of a builder: its number of tasks, root date and spacing.
#[derive(Debug, Clone, Copy, PartialEq, Eq, Structural)]
pub struct BuilderSummary {
    pub task_count: usize,
    pub root_date: Date,
    pub trim_units: u16,
    pub padding_units: u16,
}

/// The text that chrono's `Debug` gives the UTC date-time `secs` seconds and
/// `nanos` nanoseconds after the epoch, when chrono can represent it.
pub uninterp spec fn utc_debug_text(secs: i64, nanos: u32) -> Option<Seq<char>>;

/// Builds the date-time with `chrono::DateTime::from_timestamp` and formats it
/// with its `Debug` impl. Claims that the text is the one named by
/// `utc_debug_text`, and that there is none exactly where chrono refuses the
/// instant.
#[verifier::external_body]
fn utc_debug(secs: i64, nanos: u32) -> (r: Option<String>)
    ensures
        match r {
            Some(text) => utc_debug_text(secs, nanos) == Some(text@),
            None => utc_debug_text(secs, nanos) is None,
        },
{
    match chrono::DateTime::from_timestamp(secs, nanos) {
        Some(dt) => Some(format!("{:?}", dt)),
        None => None,
    }
}

/// How a summary shows its root date.
pub open spec fn root_text(date: Date) -> Seq<char> {
    match utc_debug_text(date.secs, date.nanos) {
        Some(text) => text,
        None => "out of range"@,
    }
}

/// The one-line description of a builder summary.
pub open spec fn summary_text(s: BuilderSummary) -> Seq<char> {
    "RoadlineBuilder: "@ + decimal(s.task_count as nat) + " tasks, root: "@ + root_text(s.root_date)
        + ", spacing: "@ + decimal(s.trim_units as nat) + "×"@ + decimal(s.padding_units as nat)
}

impl BuilderSummary {
    /// The summary as one line of text: the number of tasks, the root date
    /// and the spacing, trim by padding.
    pub fn to_display_string(&self) -> (r: String)
        ensures
            r@ == summary_text(*self),
    {
        let root = match utc_debug(self.root_date.secs, self.root_date.nanos) {
            Some(text) => text,
            None => String::from_str("out of range"),
        };
        String::from_str("RoadlineBuilder: ")
            .concat(decimal_string(self.task_count).as_str())
            .concat(" tasks, root: ")
            .concat(root.as_str())
            .concat(", spacing: ")
            .concat(decimal_string(self.trim_units as usize).as_str())
            .concat("×")
            .concat(decimal_string(self.padding_units as usize).as_str())
    }
}

/// Midnight of 2000-01-01 in UTC, in seconds since the epoch.
pub const Y2K_SECS: i64 = 946_684_800;

/// Gathers tasks and spacing, then builds the roadline.
pub struct RoadlineBuilder {
    config: ReifiedConfig,
    graph: Graph,
    root_date: Date,
}

impl Default for RoadlineBuilder {
    fn default() -> (r: RoadlineBuilder)
        ensures
            r.spec_graph().wf(),
            r.spec_graph().task_seq().len() == 0,
            r.spec_config() == ReifiedConfig::default_config_spec(),
            r.spec_root_date() == (Date { secs: Y2K_SECS, nanos: 0 }),
    {
        RoadlineBuilder::new()
    }
}

impl RoadlineBuilder {
    /// The spacing.
    pub closed spec fn spec_config(&self) -> ReifiedConfig {
        self.config
    }

    /// The graph of the tasks added.
    pub closed spec fn spec_graph(&self) -> Graph {
        self.graph
    }

    /// The date the roots start from.
    pub closed spec fn spec_root_date(&self) -> Date {
        self.root_date
    }

    /// A builder with the default spacing, no task, and the root date 2000-01-01.
    pub fn new() -> (r: RoadlineBuilder)
        ensures
            r.spec_graph().wf(),
            r.spec_graph().task_seq().len() == 0,
            r.spec_config() == ReifiedConfig::default_config_spec(),
            r.spec_root_date() == (Date { secs: Y2K_SECS, nanos: 0 }),
    {
        let g = Graph::new();
        proof {
            g.lemma_task_seq();
            if g.task_seq().len() > 0 {
                assert(g.task_seq().contains(g.task_seq()[0]));
            }
        }
        RoadlineBuilder { config: ReifiedConfig::default_config(), graph: g, root_date: Date::new(Y2K_SECS, 0) }
    }

    /// A builder whose roots start at the Unix epoch.
    pub fn start_of_epoch() -> (r: Result<RoadlineBuilder, RoadlineBuilderError>)
        ensures
            r matches Ok(b) && b.spec_graph().wf() && b.spec_graph().task_seq().len() == 0
                && b.spec_config() == ReifiedConfig::default_config_spec()
                && b.spec_root_date() == (Date { secs: 0, nanos: 0 }),
    {
        let b = RoadlineBuilder::with_start_date(Date::start_of_epoch());
        Ok(b)
    }

    /// A builder whose roots start at `start_date`.
    pub fn with_start_date(start_date: Date) -> (r: RoadlineBuilder)
        ensures
            r.spec_graph().wf(),
            r.spec_graph().task_seq().len() == 0,
            r.spec_config() == ReifiedConfig::default_config_spec(),
            r.spec_root_date() == start_date,
    {
        let g = Graph::new();
        proof {
            g.lemma_task_seq();
            if g.task_seq().len() > 0 {
                assert(g.task_seq().contains(g.task_seq()[0]));
            }
        }
        RoadlineBuilder { config: ReifiedConfig::default_config(), graph: g, root_date: start_date }
    }

    /// A builder whose roots start at the instant an RFC 3339 text denotes.
    pub fn from_iso_date(iso_string: &str) -> (r: Result<RoadlineBuilder, RoadlineBuilderError>)
        ensures
            r is Ok <==> rfc3339_instant(iso_string@) is Some,
            r matches Ok(b) ==> b.spec_graph().wf() && b.spec_graph().task_seq().len() == 0
                && b.spec_config() == ReifiedConfig::default_config_spec()
                && b.spec_root_date() == (Date { secs: rfc3339_instant(iso_string@)->Some_0.0, nanos: rfc3339_instant(iso_string@)->Some_0.1 }),
            r matches Err(e) ==> e is DateParsing,
            r matches Err(RoadlineBuilderError::DateParsing { message }) ==> exists|reason: Seq<char>|
                message@ == parse_failure_message(iso_string@, reason),
    {
        match parse_rfc3339(iso_string) {
            Ok((secs, nanos)) => Ok(RoadlineBuilder::with_start_date(Date::new(secs, nanos))),
            Err(reason) => {
                let message = String::from_str("Failed to parse '").concat(iso_string).concat("': ").concat(reason.as_str());
                proof {
                    assert(message@ == parse_failure_message(iso_string@, reason@));
                }
                Err(RoadlineBuilderError::DateParsing { message })
            },
        }
    }

    /// A builder whose roots start at midnight UTC of the given day.
    pub fn from_ymd(year: i32, month: u32, day: u32) -> (r: Result<RoadlineBuilder, RoadlineBuilderError>)
        ensures
            r is Ok <==> ymd_midnight(year, month, day) is Some,
            r matches Ok(b) ==> b.spec_graph().wf() && b.spec_graph().task_seq().len() == 0
                && b.spec_config() == ReifiedConfig::default_config_spec()
                && b.spec_root_date() == (Date { secs: ymd_midnight(year, month, day)->Some_0, nanos: 0 }),
            r matches Err(e) ==> e is DateParsing,
            r matches Err(RoadlineBuilderError::DateParsing { message }) ==> message@ == invalid_date_message(year, month, day),
    {
        match midnight_utc(year, month, day) {
            Some(secs) => Ok(RoadlineBuilder::with_start_date(Date::new(secs, 0))),
            None => {
                let message = String::from_str("Invalid date ").concat(signed_decimal_string(year).as_str()).concat("-")
                    .concat(two_digit_string(month).as_str()).concat("-").concat(two_digit_string(day).as_str());
                Err(RoadlineBuilderError::DateParsing { message })
            },
        }
    }

    /// The builder with the connection trim `trim`.
    pub fn with_trim(self, trim: Trim) -> (r: RoadlineBuilder)
        ensures
            r.spec_config() == (ReifiedConfig { connection_trim: trim, ..self.spec_config() }),
            r.spec_graph() == self.spec_graph(),
            r.spec_root_date() == self.spec_root_date(),
    {
        let mut b = self;
        b.config.connection_trim = trim;
        b
    }

    /// The builder with the lane padding `padding`.
    pub fn with_padding(self, padding: DownLanePadding) -> (r: RoadlineBuilder)
        ensures
            r.spec_config() == (ReifiedConfig { inter_lane_padding: padding, ..self.spec_config() }),
            r.spec_graph() == self.spec_graph(),
            r.spec_root_date() == self.spec_root_date(),
    {
        let mut b = self;
        b.config.inter_lane_padding = padding;
        b
    }

    /// The builder with the spacing `config`.
    pub fn with_config(self, config: ReifiedConfig) -> (r: RoadlineBuilder)
        ensures
            r.spec_config() == config,
            r.spec_graph() == self.spec_graph(),
            r.spec_root_date() == self.spec_root_date(),
    {
        let mut b = self;
        b.config = config;
        b
    }

    /// The builder with a trim of `trim_units` and a padding of `padding_units`.
    pub fn with_spacing(self, trim_units: u16, padding_units: u16) -> (r: RoadlineBuilder)
        ensures
            r.spec_config().connection_trim.0.0 == trim_units,
            r.spec_config().inter_lane_padding.0.0 == padding_units,
            r.spec_graph() == self.spec_graph(),
            r.spec_root_date() == self.spec_root_date(),
    {
        let mut b = self;
        b.config = ReifiedConfig::new(Trim::new(ReifiedUnit::new(trim_units)), DownLanePadding::new(ReifiedUnit::new(padding_units)));
        b
    }

    /// The builder with the compact spacing: a trim of 5 and a padding of 1.
    pub fn compact(self) -> (r: RoadlineBuilder)
        ensures
            r.spec_config().connection_trim.0.0 == 5,
            r.spec_config().inter_lane_padding.0.0 == 1,
            r.spec_graph() == self.spec_graph(),
            r.spec_root_date() == self.spec_root_date(),
    {
        self.with_spacing(5, 1)
    }

    /// The builder with the spacious spacing: a trim of 20 and a padding of 5.
    pub fn spacious(self) -> (r: RoadlineBuilder)
        ensures
            r.spec_config().connection_trim.0.0 == 20,
            r.spec_config().inter_lane_padding.0.0 == 5,
            r.spec_graph() == self.spec_graph(),
            r.spec_root_date() == self.spec_root_date(),
    {
        self.with_spacing(20, 5)
    }

    /// Adds a task and the edges from its dependencies.
    pub fn add_task(&mut self, task: Task) -> (r: Result<(), RoadlineBuilderError>)
        requires
            old(self).spec_graph().wf(),
        ensures
            r is Ok,
            final(self).spec_graph().wf(),
            final(self).spec_config() == old(self).spec_config(),
            final(self).spec_root_date() == old(self).spec_root_date(),
            final(self).spec_graph().store().task_map() == old(self).spec_graph().store().task_map().insert(task.spec_id(), task),
            forall|t: TaskId| #[trigger] final(self).spec_graph().preds_of(t) == if task.deps().contains(t) {
                old(self).spec_graph().preds_of(t).push(crate::graph::edge_predicate(t, task.spec_id()))
            } else {
                old(self).spec_graph().preds_of(t)
            },
            forall|t: TaskId| #[trigger] final(self).spec_graph().has_task(t) <==> (old(self).spec_graph().has_task(t)
                || task.deps().contains(t) || t == task.spec_id()),
    {
        match self.graph.add(task) {
            Ok(()) => Ok(()),
            Err(e) => Err(RoadlineBuilderError::from_graph_error(e)),
        }
    }

    /// Adds the tasks in turn.
    pub fn add_tasks(&mut self, tasks: Vec<Task>) -> (r: Result<(), RoadlineBuilderError>)
        requires
            old(self).spec_graph().wf(),
        ensures
            r is Ok,
            final(self).spec_graph().wf(),
            final(self).spec_config() == old(self).spec_config(),
            final(self).spec_root_date() == old(self).spec_root_date(),
            final(self).spec_graph().store().task_map() == tasks_added(old(self).spec_graph().store().task_map(), tasks@),
            forall|t: TaskId| #[trigger] final(self).spec_graph().preds_of(t)
                == preds_added(old(self).spec_graph().preds_of(t), t, tasks@),
            forall|t: TaskId| #[trigger] final(self).spec_graph().has_task(t)
                <==> (old(self).spec_graph().has_task(t) || touched_by(t, tasks@)),
            forall|i: int| 0 <= i < tasks@.len() ==> #[trigger] final(self).spec_graph().store().task_map().contains_key(tasks@[i].spec_id()),
    {
        let mut tasks = tasks;
        let ghost all = tasks@;
        let n = tasks.len();
        let ghost g0 = self.spec_graph();
        let mut i: usize = 0;
        proof {
            assert(all.subrange(0, 0) =~= Seq::<Task>::empty());
            assert(all.subrange(0, all.len() as int) =~= all);
        }
        while tasks.len() > 0
            invariant
                self.spec_graph().wf(),
                self.spec_config() == old(self).spec_config(),
                self.spec_root_date() == old(self).spec_root_date(),
                g0 == old(self).spec_graph(),
                i <= all.len(),
                all.len() == n,
                tasks@ == all.subrange(i as int, all.len() as int),
                self.spec_graph().store().task_map() == tasks_added(g0.store().task_map(), all.subrange(0, i as int)),
                forall|t: TaskId| #[trigger] self.spec_graph().preds_of(t) == preds_added(g0.preds_of(t), t, all.subrange(0, i as int)),
                forall|t: TaskId| #[trigger] self.spec_graph().has_task(t)
                    <==> (g0.has_task(t) || touched_by(t, all.subrange(0, i as int))),
            decreases tasks@.len(),
        {
            let task = tasks.remove(0);
            proof {
                let s1 = all.subrange(0, i + 1);
                assert(s1.drop_last() =~= all.subrange(0, i as int));
                assert(s1.last() == task);
                assert(tasks@ =~= all.subrange(i + 1, all.len() as int));
            }
            let _ = self.add_task(task);
            i = i + 1;
        }
        proof {
            assert(i == all.len());
            lemma_tasks_added_keys(g0.store().task_map(), all);
        }
        Ok(())
    }

    /// The builder with `task` added.
    pub fn task(self, task: Task) -> (r: Result<RoadlineBuilder, RoadlineBuilderError>)
        requires
            self.spec_graph().wf(),
        ensures
            r matches Ok(b) && b.spec_graph().wf() && b.spec_config() == self.spec_config()
                && b.spec_root_date() == self.spec_root_date()
                && b.spec_graph().store().task_map() == self.spec_graph().store().task_map().insert(task.spec_id(), task),
    {
        let mut b = self;
        let _ = b.add_task(task);
        Ok(b)
    }

    /// The builder with the tasks added in turn.
    pub fn tasks(self, tasks: Vec<Task>) -> (r: Result<RoadlineBuilder, RoadlineBuilderError>)
        requires
            self.spec_graph().wf(),
        ensures
            r matches Ok(b) && b.spec_graph().wf() && b.spec_config() == self.spec_config()
                && b.spec_root_date() == self.spec_root_date()
                && forall|i: int| 0 <= i < tasks@.len() ==> #[trigger] b.spec_graph().store().task_map().contains_key(tasks@[i].spec_id()),
    {
        let mut b = self;
        let _ = b.add_tasks(tasks);
        Ok(b)
    }

    /// The builder with `task` added, and the error, if any, of adding it.
    pub fn try_task(self, task: Task) -> (r: (RoadlineBuilder, Option<RoadlineBuilderError>))
        requires
            self.spec_graph().wf(),
        ensures
            r.1 is None,
            r.0.spec_graph().wf(),
            r.0.spec_config() == self.spec_config(),
            r.0.spec_root_date() == self.spec_root_date(),
            r.0.spec_graph().store().task_map() == self.spec_graph().store().task_map().insert(task.spec_id(), task),
    {
        let mut b = self;
        match b.add_task(task) {
            Ok(()) => (b, None),
            Err(e) => (b, Some(e)),
        }
    }

    /// The number of tasks of the graph.
    pub fn task_count(&self) -> (r: usize)
        ensures
            r == self.spec_graph().task_seq().len(),
    {
        self.graph.task_count()
    }

    /// Whether the graph has no task.
    pub fn is_empty(&self) -> (r: bool)
        ensures
            r == (self.spec_graph().task_seq().len() == 0),
    {
        self.task_count() == 0
    }

    /// The date the roots start from.
    pub fn root_date(&self) -> (r: &Date)
        ensures
            *r == self.spec_root_date(),
    {
        &self.root_date
    }

    /// The spacing.
    pub fn config(&self) -> (r: &ReifiedConfig)
        ensures
            *r == self.spec_config(),
    {
        &self.config
    }

    /// Refuses a builder without tasks.
    pub fn validate(&self) -> (r: Result<(), RoadlineBuilderError>)
        ensures
            r is Ok <==> self.spec_graph().task_seq().len() > 0,
            r matches Err(e) ==> e is NoTasks,
    {
        if self.is_empty() {
            return Err(RoadlineBuilderError::NoTasks);
        }
        Ok(())
    }

    /// A summary of the builder.
    pub fn summary(&self) -> (r: BuilderSummary)
        ensures
            r.task_count == self.spec_graph().task_seq().len(),
            r.root_date == self.spec_root_date(),
            r.trim_units == self.spec_config().connection_trim.0.0,
            r.padding_units == self.spec_config().inter_lane_padding.0.0,
    {
        BuilderSummary {
            task_count: self.task_count(),
            root_date: self.root_date,
            trim_units: self.config.connection_trim.value().value(),
            padding_units: self.config.inter_lane_padding.value().value(),
        }
    }

    /// Builds the roadline: places the tasks in time, lays them out on the
    /// grid, and draws them.
    pub fn build(self) -> (r: Result<Roadline, RoadlineBuilderError>)
        requires
            self.spec_graph().wf(),
        ensures
            self.spec_graph().task_seq().len() == 0 ==> (r matches Err(e) && e is NoTasks),
            self.spec_graph().task_seq().len() > 0 && has_cycle(self.spec_graph()) ==> (r matches Err(e) && e is GraphHasCycles),
            r matches Ok(rl) ==> rl.spec_reified().spec_grid().spec_range_algebra().spec_graph() == self.spec_graph()
                && schedule_holds(self.spec_graph(), self.spec_root_date(), rl.spec_reified().spec_grid().spec_range_algebra().span_map())
                && grid_ok(rl.spec_reified().spec_grid(), rl.spec_reified().spec_grid().spec_range_algebra())
                && rl.spec_reified().spec_config() == self.spec_config()
                && drawing_ok(rl.spec_reified().spec_grid(), self.spec_config(), rl.spec_reified().down_cell_map(), rl.spec_reified().joint_seq()),
            self.spec_graph().task_seq().len() > 0 ==> exists|rr: Result<RangeAlgebra, RangeAlgebraError>|
                #[trigger] range_stage(self.spec_graph(), self.spec_root_date(), rr) && match rr {
                    Err(re) => r matches Err(e) && reports_range_error(e, re),
                    Ok(ra) => layout_stage(ra, self.spec_config(), r),
                },
    {
        if self.is_empty() {
            return Err(RoadlineBuilderError::NoTasks);
        }
        let ghost g = self.graph;
        let ghost sg = self.spec_graph();
        let ghost sr = self.spec_root_date();
        let ghost sc = self.spec_config();
        let root = self.root_date;
        let config = self.config;
        let rr = PreRangeAlgebra::new(self.graph).compute(root);
        let ghost rr0 = rr;
        proof {
            assert(range_stage(g, root, rr0));
            assert(g == sg && root == sr && config == sc);
        }
        let ra = match rr {
            Ok(ra) => ra,
            Err(e) => {
                let b = RoadlineBuilderError::from_range_algebra_error(e);
                proof {
                    assert(rr0 == Err::<RangeAlgebra, RangeAlgebraError>(e));
                    assert(range_stage(g, root, rr0) && reports_range_error(b, e));
                    assert(exists|x: Result<RangeAlgebra, RangeAlgebraError>| #[trigger] range_stage(sg, sr, x) && match x {
                        Err(re) => Err::<Roadline, RoadlineBuilderError>(b) matches Err(e2) && reports_range_error(e2, re),
                        Ok(ra) => layout_stage(ra, sc, Err(b)),
                    });
                }
                return Err(b);
            },
        };
        let gr = PreGridAlgebra::new(ra).compute();
        let ga = match gr {
            Ok(ga) => ga,
            Err(e) => {
                let b = RoadlineBuilderError::from_grid_algebra_error(e);
                proof {
                    lemma_layout_grid_error(ra, config, e, b);
                    assert(rr0 == Ok::<RangeAlgebra, RangeAlgebraError>(ra));
                    assert(range_stage(g, root, rr0) && layout_stage(ra, config, Err(b)));
                    assert(exists|x: Result<RangeAlgebra, RangeAlgebraError>| #[trigger] range_stage(sg, sr, x) && match x {
                        Err(re) => Err::<Roadline, RoadlineBuilderError>(b) matches Err(e2) && reports_range_error(e2, re),
                        Ok(ra) => layout_stage(ra, sc, Err(b)),
                    });
                }
                return Err(b);
            },
        };
        let dr = PreReified::with_config(ga, config).compute();
        let re = match dr {
            Ok(re) => re,
            Err(e) => {
                let b = RoadlineBuilderError::from_reified_error(e);
                proof {
                    assert(ga.spec_range_algebra() == ra);
                    let t = e->DoesNotFit_task_id;
                    assert(ga.cell_map().contains_key(t) && !task_fits(ra.spec_graph(), t, ga.cell_map()[t], config));
                    lemma_layout_drawing(ra, config, ga, Err(b));
                    assert(rr0 == Ok::<RangeAlgebra, RangeAlgebraError>(ra));
                    assert(range_stage(g, root, rr0) && layout_stage(ra, config, Err(b)));
                }
                return Err(b);
            },
        };
        let out = Roadline { reified: re };
        proof {
            assert(ga.spec_range_algebra() == ra);
            lemma_layout_drawing(ra, config, ga, Ok(out));
            assert(rr0 == Ok::<RangeAlgebra, RangeAlgebraError>(ra));
            assert(range_stage(g, root, rr0) && layout_stage(ra, config, Ok(out)));
        }
        Ok(out)
    }
}

/// A built roadline: the drawing of its tasks and dependencies.
pub struct Roadline {
    reified: Reified,
}

impl Roadline {
    /// The drawing.
    pub closed spec fn spec_reified(&self) -> Reified {
        self.reified
    }

    /// The number of tasks drawn.
    pub fn task_count(&self) -> (r: usize)
        ensures
            r == self.spec_reified().down_cell_keys().len(),
    {
        self.reified.task_count()
    }

    /// The number of joints.
    pub fn connection_count(&self) -> (r: usize)
        ensures
            r == self.spec_reified().joint_seq().len(),
    {
        self.reified.connection_count()
    }

    /// The extent of the drawing.
    pub fn visual_bounds(&self) -> (r: (ReifiedUnit, ReifiedUnit))
        ensures
            r.0.0 == crate::reified::max_stretch_end(self.spec_reified().down_cell_map(), self.spec_reified().down_cell_keys()),
            r.1.0 == crate::reified::max_lane_end(self.spec_reified().down_cell_map(), self.spec_reified().down_cell_keys()),
            crate::reified::bounds_of(self.spec_reified().down_cell_map(), r.0.0, r.1.0),
    {
        self.reified.visual_bounds()
    }

    /// The spacing.
    pub fn config(&self) -> (r: &ReifiedConfig)
        ensures
            *r == self.spec_reified().spec_config(),
    {
        self.reified.config()
    }

    /// The drawing of `task_id`, if it has one.
    pub fn get_task_bounds(&self, task_id: TaskId) -> (r: Option<&DownCell>)
        ensures
            r matches Some(c) ==> self.spec_reified().down_cell_map().contains_key(task_id) && *c == self.spec_reified().down_cell_map()[task_id],
            r is None ==> !self.spec_reified().down_cell_map().contains_key(task_id),
    {
        self.reified.get_down_cell(task_id)
    }

    /// Whether `task_id` is drawn.
    pub fn contains_task(&self, task_id: TaskId) -> (r: bool)
        ensures
            r == self.spec_reified().down_cell_map().contains_key(task_id),
    {
        self.reified.get_down_cell(task_id).is_some()
    }

    /// The tasks with their drawings, in increasing order of task.
    pub fn tasks(&self) -> (r: Vec<(TaskId, DownCell)>)
        ensures
            r@.len() == self.spec_reified().down_cell_keys().len(),
            forall|i: int| 0 <= i < r@.len() ==> (#[trigger] r@[i]).0 == self.spec_reified().down_cell_keys()[i]
                && r@[i].1 == self.spec_reified().down_cell_map()[r@[i].0],
    {
        self.reified.task_bounds()
    }

    /// The tasks drawn, in increasing order.
    pub fn task_ids(&self) -> (r: Vec<TaskId>)
        ensures
            r@ == self.spec_reified().down_cell_keys(),
    {
        let all = self.reified.task_bounds();
        let mut out: Vec<TaskId> = Vec::new();
        let mut i: usize = 0;
        while i < all.len()
            invariant
                i <= all@.len(),
                all@.len() == self.spec_reified().down_cell_keys().len(),
                forall|q: int| 0 <= q < all@.len() ==> (#[trigger] all@[q]).0 == self.spec_reified().down_cell_keys()[q],
                out@ == self.spec_reified().down_cell_keys().subrange(0, i as int),
            decreases all@.len() - i,
        {
            out.push(all[i].0);
            proof {
                assert(out@ =~= self.spec_reified().down_cell_keys().subrange(0, i + 1));
            }
            i = i + 1;
        }
        proof {
            assert(self.spec_reified().down_cell_keys().subrange(0, i as int) == self.spec_reified().down_cell_keys());
        }
        out
    }

    /// The joint of `dependency_id`, if there is one.
    pub fn get_connection(&self, dependency_id: DependencyId) -> (r: Option<&Joint>)
        ensures
            r matches Some(j) ==> j.dependency == dependency_id && self.spec_reified().joint_seq().contains(*j),
            r is None ==> forall|i: int| 0 <= i < self.spec_reified().joint_seq().len()
                ==> (#[trigger] self.spec_reified().joint_seq()[i]).dependency != dependency_id,
    {
        self.reified.get_joint(dependency_id)
    }

    /// Whether `dependency_id` has a joint.
    pub fn contains_connection(&self, dependency_id: DependencyId) -> (r: bool)
        ensures
            r == exists|i: int| 0 <= i < self.spec_reified().joint_seq().len()
                && (#[trigger] self.spec_reified().joint_seq()[i]).dependency == dependency_id,
    {
        match self.reified.get_joint(dependency_id) {
            Some(j) => {
                proof {
                    let i = choose|i: int| 0 <= i < self.spec_reified().joint_seq().len() && self.spec_reified().joint_seq()[i] == *j;
                    assert(self.spec_reified().joint_seq()[i].dependency == dependency_id);
                }
                true
            },
            None => false,
        }
    }

    /// The joints.
    pub fn connections(&self) -> (r: &Vec<Joint>)
        ensures
            r@ == self.spec_reified().joint_seq(),
    {
        self.reified.connections()
    }

    /// The dependencies drawn, in the order of the joints.
    pub fn connection_ids(&self) -> (r: Vec<DependencyId>)
        ensures
            r@.len() == self.spec_reified().joint_seq().len(),
            forall|i: int| 0 <= i < r@.len() ==> #[trigger] r@[i] == self.spec_reified().joint_seq()[i].dependency,
    {
        let joints = self.reified.connections();
        let mut out: Vec<DependencyId> = Vec::new();
        let mut i: usize = 0;
        while i < joints.len()
            invariant
                i <= joints@.len(),
                joints@ == self.spec_reified().joint_seq(),
                out@.len() == i,
                forall|q: int| 0 <= q < i ==> #[trigger] out@[q] == joints@[q].dependency,
            decreases joints@.len() - i,
        {
            out.push(joints[i].dependency);
            i = i + 1;
        }
        out
    }

    /// The rectangle of each task, in increasing order of task: the task,
    /// the start and end of its extent, and the start and end of its lane.
    pub fn task_rectangles(&self) -> (r: Vec<(TaskId, u16, u16, u16, u16)>)
        ensures
            r@.len() == self.spec_reified().down_cell_keys().len(),
            forall|i: int| 0 <= i < r@.len() ==> {
                let c = self.spec_reified().down_cell_map()[self.spec_reified().down_cell_keys()[i]];
                &&& (#[trigger] r@[i]).0 == self.spec_reified().down_cell_keys()[i]
                &&& r@[i].1 == c.down_stretch.down_stretch.start.0
                &&& r@[i].2 == c.down_lane.range.start.0
                &&& r@[i].3 == c.down_stretch.down_stretch.end.0
                &&& r@[i].4 == c.down_lane.range.end.0
            },
    {
        let all = self.reified.task_bounds();
        let mut out: Vec<(TaskId, u16, u16, u16, u16)> = Vec::new();
        let mut i: usize = 0;
        while i < all.len()
            invariant
                i <= all@.len(),
                all@.len() == self.spec_reified().down_cell_keys().len(),
                forall|q: int| 0 <= q < all@.len() ==> (#[trigger] all@[q]).0 == self.spec_reified().down_cell_keys()[q]
                    && all@[q].1 == self.spec_reified().down_cell_map()[all@[q].0],
                out@.len() == i,
                forall|q: int| 0 <= q < i ==> {
                    let c = self.spec_reified().down_cell_map()[self.spec_reified().down_cell_keys()[q]];
                    &&& (#[trigger] out@[q]).0 == self.spec_reified().down_cell_keys()[q]
                    &&& out@[q].1 == c.down_stretch.down_stretch.start.0
                    &&& out@[q].2 == c.down_lane.range.start.0
                    &&& out@[q].3 == c.down_stretch.down_stretch.end.0
                    &&& out@[q].4 == c.down_lane.range.end.0
                },
            decreases all@.len() - i,
        {
            let (t, c) = all[i];
            out.push((t, c.down_stretch.down_stretch.start.0, c.down_lane.range.start.0,
                c.down_stretch.down_stretch.end.0, c.down_lane.range.end.0));
            i = i + 1;
        }
        out
    }

    /// The end points of each joint, in the order of the joints.
    pub fn connection_endpoints(&self) -> (r: Vec<(DependencyId, ConnectionPoint, ConnectionPoint)>)
        ensures
            r@.len() == self.spec_reified().joint_seq().len(),
            forall|i: int| 0 <= i < r@.len() ==> #[trigger] r@[i] == (self.spec_reified().joint_seq()[i].dependency,
                self.spec_reified().joint_seq()[i].start, self.spec_reified().joint_seq()[i].end),
    {
        let joints = self.reified.connections();
        let mut out: Vec<(DependencyId, ConnectionPoint, ConnectionPoint)> = Vec::new();
        let mut i: usize = 0;
        while i < joints.len()
            invariant
                i <= joints@.len(),
                joints@ == self.spec_reified().joint_seq(),
                out@.len() == i,
                forall|q: int| 0 <= q < i ==> #[trigger] out@[q] == (joints@[q].dependency, joints@[q].start, joints@[q].end),
            decreases joints@.len() - i,
        {
            let j = joints[i];
            out.push((j.dependency, j.start, j.end));
            i = i + 1;
        }
        out
    }

    /// The drawing.
    pub fn reified(&self) -> (r: &Reified)
        ensures
            *r == self.spec_reified(),
    {
        &self.reified
    }

    /// The grid.
    pub fn grid_algebra(&self) -> (r: &GridAlgebra)
        ensures
            *r == self.spec_reified().spec_grid(),
    {
        self.reified.grid()
    }

    /// The range algebra.
    pub fn range_algebra(&self) -> (r: &RangeAlgebra)
        ensures
            *r == self.spec_reified().spec_grid().spec_range_algebra(),
    {
        self.reified.grid().range_algebra()
    }
}

} // verus!
