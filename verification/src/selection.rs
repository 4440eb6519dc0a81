//! Selection decisions of the interactive renderer.
//!
//! The renderer itself (windows, cameras, sprites) lives outside the library;
//! what it decides from input and selection states is stated and proved here:
//! how a dependency edge is highlighted, which input gestures trigger an
//! external selection, how long a touch was held, and which selection-change
//! events are emitted.

use vstd::prelude::*;
use std::collections::HashMap;
use std::time::{Duration, Instant};

use crate::graph::Graph;
use crate::id_map::IdMap;
use crate::ids::{DependencyId, TaskId};
use crate::traversal::{firsts, reaches};

verus! {

broadcast use vstd::std_specs::hash::group_hash_axioms;

/// The selection state of a task or a dependency in the renderer.
#[derive(Debug, Clone, Copy, PartialEq, Eq, Structural)]
pub enum SelectionState {
    /// Not selected and not related to a selection.
    Unselected,
    /// Selected by the user.
    Selected,
    /// Reachable from a selected task.
    Descendant,
    /// A selected task is reachable from it.
    Parent,
}

/// The selection states at both ends of a dependency edge.
#[derive(Debug, Clone, Copy, PartialEq, Eq, Structural)]
pub struct EdgeSelection {
    pub from: SelectionState,
    pub to: SelectionState,
}

/// An edge touches the selection when it leaves a selected task or one of
/// its descendants, or runs from a parent towards the selection.
pub open spec fn edge_connected(from: SelectionState, to: SelectionState) -> bool {
    ||| from == SelectionState::Selected
    ||| from == SelectionState::Descendant
    ||| (from == SelectionState::Parent && to != SelectionState::Unselected)
}

/// An edge is drawn in the parent colour when it runs from a parent towards
/// the selection.
pub open spec fn edge_red(from: SelectionState, to: SelectionState) -> bool {
    from == SelectionState::Parent && to != SelectionState::Unselected
}

impl EdgeSelection {
    /// The edge between a task in state `from` and a task in state `to`.
    pub fn new(from: SelectionState, to: SelectionState) -> (r: EdgeSelection)
        ensures
            r.from == from,
            r.to == to,
    {
        EdgeSelection { from, to }
    }

    /// Whether the edge is connected to a selection (selected, descendant or parent).
    pub fn is_connected_to_selection(&self) -> (r: bool)
        ensures
            r == edge_connected(self.from, self.to),
    {
        self.from == SelectionState::Selected || self.from == SelectionState::Descendant || (
        self.from == SelectionState::Parent && self.to == SelectionState::Selected) || (self.from
            == SelectionState::Parent && self.to == SelectionState::Descendant) || (self.from
            == SelectionState::Parent && self.to == SelectionState::Parent)
    }

    /// Whether the edge is drawn in the parent colour.
    pub fn should_be_red(&self) -> (r: bool)
        ensures
            r == edge_red(self.from, self.to),
    {
        (self.from == SelectionState::Parent && self.to == SelectionState::Selected) || (self.from
            == SelectionState::Parent && self.to == SelectionState::Descendant) || (self.from
            == SelectionState::Parent && self.to == SelectionState::Parent)
    }
}

/// Every edge drawn in the parent colour is connected to the selection.
pub proof fn lemma_red_edges_are_connected(edge: EdgeSelection)
    ensures
        edge_red(edge.from, edge.to) ==> edge_connected(edge.from, edge.to),
{
}

/// The colour a task border or a dependency curve takes.
#[derive(Debug, Clone, Copy, PartialEq, Eq, Structural)]
pub enum Highlight {
    /// Left as the selection drew it.
    Keep,
    /// The plain, unselected colour.
    Plain,
    /// The hover colour.
    Hover,
    /// The selection colour.
    Selected,
    /// The parent colour.
    Parent,
}

/// How hovering treats a task border: borders of tasks in the selection
/// keep their colour; others show the hover colour under the cursor and the
/// plain colour elsewhere.
pub fn task_hover_highlight(state: SelectionState, under_cursor: bool) -> (r: Highlight)
    ensures
        state != SelectionState::Unselected ==> r == Highlight::Keep,
        state == SelectionState::Unselected ==> r == if under_cursor {
            Highlight::Hover
        } else {
            Highlight::Plain
        },
{
    if state == SelectionState::Selected || state == SelectionState::Descendant || state == SelectionState::Parent {
        Highlight::Keep
    } else if under_cursor {
        Highlight::Hover
    } else {
        Highlight::Plain
    }
}

/// The colour of a dependency curve: the parent colour for edges from a
/// parent towards the selection, the selection colour for other edges
/// connected to it, the hover colour near the cursor, and the plain colour
/// otherwise.
pub fn edge_highlight(edge: EdgeSelection, near_cursor: bool) -> (r: Highlight)
    ensures
        r == if edge_red(edge.from, edge.to) {
            Highlight::Parent
        } else if edge_connected(edge.from, edge.to) {
            Highlight::Selected
        } else if near_cursor {
            Highlight::Hover
        } else {
            Highlight::Plain
        },
{
    if edge.should_be_red() {
        Highlight::Parent
    } else if edge.is_connected_to_selection() {
        Highlight::Selected
    } else if near_cursor {
        Highlight::Hover
    } else {
        Highlight::Plain
    }
}

/// An input gesture that selects a task for an external consumer.
#[derive(Debug, Clone, Copy, PartialEq, Eq, Structural)]
pub enum InputTrigger {
    /// Shift + left click (the default).
    ShiftLeftClick,
    /// Right click.
    RightClick,
    /// Press and hold on a touch screen.
    PressAndHold,
    /// Left click alone.
    LeftClick,
    /// Ctrl + left click.
    CtrlLeftClick,
    /// Alt + left click.
    AltLeftClick,
    /// Any click.
    AnyClick,
}

impl Default for InputTrigger {
    fn default() -> (r: InputTrigger)
        ensures
            r == InputTrigger::ShiftLeftClick,
    {
        InputTrigger::ShiftLeftClick
    }
}

/// A mouse button.
#[derive(Debug, Clone, Copy, PartialEq, Eq, Structural)]
pub enum MouseButton {
    Left,
    Right,
    Middle,
    Back,
    Forward,
    Other(u16),
}

/// Whether a button went down or up.
#[derive(Debug, Clone, Copy, PartialEq, Eq, Structural)]
pub enum ButtonState {
    Pressed,
    Released,
}

/// A mouse button event.
#[derive(Debug, Clone, Copy, PartialEq, Eq, Structural)]
pub struct MouseButtonInput {
    pub button: MouseButton,
    pub state: ButtonState,
}

/// The modifier keys held down while an input event arrives.
#[derive(Debug, Clone, Copy, PartialEq, Eq, Structural)]
pub struct HeldModifiers {
    pub shift_left: bool,
    pub control_left: bool,
    pub alt_left: bool,
}

/// Whether one trigger fires for a mouse event on `button`.
pub open spec fn mouse_trigger_fires(
    trigger: InputTrigger,
    button: MouseButton,
    state: ButtonState,
    keys: HeldModifiers,
) -> bool {
    let pressed = state == ButtonState::Pressed;
    match trigger {
        InputTrigger::ShiftLeftClick => button == MouseButton::Left && pressed && keys.shift_left,
        InputTrigger::RightClick => button == MouseButton::Right && pressed,
        InputTrigger::PressAndHold => false,
        InputTrigger::LeftClick => button == MouseButton::Left && pressed,
        InputTrigger::CtrlLeftClick => button == MouseButton::Left && pressed
            && keys.control_left,
        InputTrigger::AltLeftClick => button == MouseButton::Left && pressed && keys.alt_left,
        InputTrigger::AnyClick => pressed,
    }
}

/// Which mouse events the triggers fire on: a shift, ctrl or alt left
/// click on a pressed left button with that key held, a plain left click on
/// a pressed left button, a right click on a pressed right button, and any
/// click on any pressed button; press and hold never fires for a mouse.
pub proof fn lemma_mouse_triggers(triggers: Seq<InputTrigger>, button: MouseButton, state: ButtonState, keys: HeldModifiers)
    ensures
        (exists|i: int| 0 <= i < triggers.len() && #[trigger] mouse_trigger_fires(triggers[i], button, state, keys)) <==> (
            (triggers.contains(InputTrigger::ShiftLeftClick) && button == MouseButton::Left && state == ButtonState::Pressed && keys.shift_left)
            || (triggers.contains(InputTrigger::CtrlLeftClick) && button == MouseButton::Left && state == ButtonState::Pressed && keys.control_left)
            || (triggers.contains(InputTrigger::AltLeftClick) && button == MouseButton::Left && state == ButtonState::Pressed && keys.alt_left)
            || (triggers.contains(InputTrigger::LeftClick) && button == MouseButton::Left && state == ButtonState::Pressed)
            || (triggers.contains(InputTrigger::RightClick) && button == MouseButton::Right && state == ButtonState::Pressed)
            || (triggers.contains(InputTrigger::AnyClick) && state == ButtonState::Pressed)),
{
    let pressed = state == ButtonState::Pressed;
    if exists|i: int| 0 <= i < triggers.len() && #[trigger] mouse_trigger_fires(triggers[i], button, state, keys) {
        let i = choose|i: int| 0 <= i < triggers.len() && #[trigger] mouse_trigger_fires(triggers[i], button, state, keys);
        assert(triggers.contains(triggers[i]));
    }
    let kinds = seq![
        InputTrigger::ShiftLeftClick, InputTrigger::CtrlLeftClick, InputTrigger::AltLeftClick,
        InputTrigger::LeftClick, InputTrigger::RightClick, InputTrigger::AnyClick,
    ];
    assert forall|k: int| 0 <= k < kinds.len() && triggers.contains(#[trigger] kinds[k])
        && mouse_trigger_fires(kinds[k], button, state, keys)
        implies exists|i: int| 0 <= i < triggers.len() && #[trigger] mouse_trigger_fires(triggers[i], button, state, keys) by {
        let i = choose|i: int| 0 <= i < triggers.len() && triggers[i] == kinds[k];
        assert(mouse_trigger_fires(triggers[i], button, state, keys));
    }
    assert(kinds[0] == InputTrigger::ShiftLeftClick);
    assert(kinds[1] == InputTrigger::CtrlLeftClick);
    assert(kinds[2] == InputTrigger::AltLeftClick);
    assert(kinds[3] == InputTrigger::LeftClick);
    assert(kinds[4] == InputTrigger::RightClick);
    assert(kinds[5] == InputTrigger::AnyClick);
}

/// Whether a mouse event on `button` matches any of the configured triggers.
pub fn matches_mouse_input(
    triggers: &Vec<InputTrigger>,
    button: MouseButton,
    input: &MouseButtonInput,
    keyboard_input: &HeldModifiers,
) -> (r: bool)
    ensures
        r == exists|i: int|
            0 <= i < triggers@.len() && #[trigger] mouse_trigger_fires(
                triggers@[i],
                button,
                input.state,
                *keyboard_input,
            ),
        r == ((triggers@.contains(InputTrigger::ShiftLeftClick) && button == MouseButton::Left
                && input.state == ButtonState::Pressed && keyboard_input.shift_left)
            || (triggers@.contains(InputTrigger::CtrlLeftClick) && button == MouseButton::Left
                && input.state == ButtonState::Pressed && keyboard_input.control_left)
            || (triggers@.contains(InputTrigger::AltLeftClick) && button == MouseButton::Left
                && input.state == ButtonState::Pressed && keyboard_input.alt_left)
            || (triggers@.contains(InputTrigger::LeftClick) && button == MouseButton::Left && input.state == ButtonState::Pressed)
            || (triggers@.contains(InputTrigger::RightClick) && button == MouseButton::Right && input.state == ButtonState::Pressed)
            || (triggers@.contains(InputTrigger::AnyClick) && input.state == ButtonState::Pressed)),
{
    proof {
        lemma_mouse_triggers(triggers@, button, input.state, *keyboard_input);
    }
    let pressed = input.state == ButtonState::Pressed;
    let mut i: usize = 0;
    while i < triggers.len()
        invariant
            i <= triggers@.len(),
            pressed == (input.state == ButtonState::Pressed),
            forall|j: int|
                0 <= j < i ==> !#[trigger] mouse_trigger_fires(
                    triggers@[j],
                    button,
                    input.state,
                    *keyboard_input,
                ),
        decreases triggers@.len() - i,
    {
        let fires = match triggers[i] {
            InputTrigger::ShiftLeftClick => button == MouseButton::Left && pressed
                && keyboard_input.shift_left,
            InputTrigger::RightClick => button == MouseButton::Right && pressed,
            InputTrigger::PressAndHold => false,
            InputTrigger::LeftClick => button == MouseButton::Left && pressed,
            InputTrigger::CtrlLeftClick => button == MouseButton::Left && pressed
                && keyboard_input.control_left,
            InputTrigger::AltLeftClick => button == MouseButton::Left && pressed
                && keyboard_input.alt_left,
            InputTrigger::AnyClick => pressed,
        };
        if fires {
            assert(mouse_trigger_fires(triggers@[i as int], button, input.state, *keyboard_input));
            return true;
        }
        i = i + 1;
    }
    false
}

/// The phase of a touch on a touch screen.
#[derive(Debug, Clone, Copy, PartialEq, Eq, Structural)]
pub enum TouchPhase {
    Started,
    Moved,
    Ended,
    Canceled,
}

/// A touch event: which touch, and in which phase.
#[derive(Debug, Clone, Copy, PartialEq, Eq, Structural)]
pub struct TouchInput {
    pub id: u64,
    pub phase: TouchPhase,
}

#[verifier::external_type_specification]
#[verifier::external_body]
pub struct ExInstant(std::time::Instant);

/// Calls `std::time::Instant::now`. The instant read from the monotonic clock
/// depends on when the call is made, so nothing is claimed of it.
#[verifier::external_body]
fn clock_now() -> (now: Instant) {
    Instant::now()
}

/// Calls `std::time::Instant::elapsed`: the time that has passed since
/// `start`. It depends on the clock, so nothing is claimed of it.
#[verifier::external_body]
fn elapsed_since(start: &Instant) -> (elapsed: Duration) {
    start.elapsed()
}

/// Calls `std::time::Duration::as_millis`: the whole milliseconds in
/// `duration`. A `Duration` is opaque to the proofs, so nothing is claimed
/// of the number.
#[verifier::external_body]
fn whole_millis(duration: &Duration) -> (ms: u128) {
    duration.as_millis()
}

/// Whether a touch held for `elapsed_ms` milliseconds counts as a press and
/// hold, given the minimum hold duration.
pub fn hold_long_enough(elapsed_ms: u128, min_hold_duration_ms: u64) -> (r: bool)
    ensures
        r == (elapsed_ms >= min_hold_duration_ms),
{
    elapsed_ms >= min_hold_duration_ms as u128
}

/// The touches under way after `event`: a started touch joins them, an
/// ended or canceled one leaves them.
pub open spec fn touch_effect(active: Set<u64>, event: TouchInput) -> Set<u64> {
    match event.phase {
        TouchPhase::Started => active.insert(event.id),
        TouchPhase::Moved => active,
        TouchPhase::Ended => active.remove(event.id),
        TouchPhase::Canceled => active.remove(event.id),
    }
}

/// Tracks when each touch started, to recognise press-and-hold gestures.
pub struct TouchDurationTracker {
    touch_starts: HashMap<u64, Instant>,
    /// Minimum duration of a press and hold, in milliseconds.
    pub min_hold_duration_ms: u64,
    /// The start instant of the last touch that ended while under way, and
    /// the whole milliseconds read from the clock since it.
    last_hold: Ghost<Option<(Instant, u128)>>,
}

impl TouchDurationTracker {
    /// The identifiers of the touches under way.
    pub closed spec fn active_touches(&self) -> Set<u64> {
        self.touch_starts@.dom()
    }

    /// The minimum duration of a press and hold, in milliseconds.
    pub closed spec fn min_hold(&self) -> u64 {
        self.min_hold_duration_ms
    }

    /// The instant at which each touch under way started.
    pub closed spec fn start_instants(&self) -> Map<u64, Instant> {
        self.touch_starts@
    }

    /// The start instant of the last touch that ended while under way, and
    /// the whole milliseconds it lasted, as read from the clock.
    pub closed spec fn last_hold(&self) -> Option<(Instant, u128)> {
        self.last_hold@
    }

    /// The touches under way are those with a start instant.
    pub proof fn lemma_active_touches(&self)
        ensures
            self.active_touches() == self.start_instants().dom(),
    {
    }

    /// A tracker with no touch under way.
    pub fn new(min_hold_duration_ms: u64) -> (r: TouchDurationTracker)
        ensures
            r.min_hold() == min_hold_duration_ms,
            r.active_touches() == Set::<u64>::empty(),
            r.start_instants() == Map::<u64, Instant>::empty(),
    {
        TouchDurationTracker { touch_starts: HashMap::new(), min_hold_duration_ms, last_hold: Ghost(None) }
    }

    /// Records a touch event; returns whether it ends a press and hold.
    ///
    /// A started touch is timed from now; an ended touch that was under way
    /// is a press and hold when it lasted at least the minimum duration (see
    /// `hold_long_enough`, applied to the milliseconds read from the clock);
    /// an ended touch that was not under way, a moved one and a canceled one
    /// are not.
    pub fn handle_touch_event(&mut self, touch_event: &TouchInput) -> (held: bool)
        ensures
            final(self).min_hold() == old(self).min_hold(),
            final(self).active_touches() == touch_effect(old(self).active_touches(), *touch_event),
            held ==> touch_event.phase == TouchPhase::Ended && old(self).active_touches().contains(
                touch_event.id,
            ),
            (touch_event.phase == TouchPhase::Ended && old(self).active_touches().contains(touch_event.id)
                && old(self).min_hold() == 0) ==> held,
            touch_event.phase == TouchPhase::Started ==> final(self).start_instants().contains_key(touch_event.id)
                && final(self).start_instants().remove(touch_event.id) == old(self).start_instants().remove(touch_event.id),
            (touch_event.phase == TouchPhase::Ended || touch_event.phase == TouchPhase::Canceled)
                ==> final(self).start_instants() == old(self).start_instants().remove(touch_event.id),
            touch_event.phase == TouchPhase::Moved ==> *final(self) == *old(self),
            (touch_event.phase == TouchPhase::Ended && old(self).active_touches().contains(touch_event.id)) ==> {
                &&& final(self).last_hold() matches Some((start, ms))
                &&& start == old(self).start_instants()[touch_event.id]
                &&& held == (ms >= old(self).min_hold())
            },
            !(touch_event.phase == TouchPhase::Ended && old(self).active_touches().contains(touch_event.id))
                ==> final(self).last_hold() == old(self).last_hold(),
    {
        match touch_event.phase {
            TouchPhase::Started => {
                let now = clock_now();
                self.touch_starts.insert(touch_event.id, now);
                false
            },
            TouchPhase::Ended => {
                match self.touch_starts.remove(&touch_event.id) {
                    Some(start_time) => {
                        let elapsed = elapsed_since(&start_time);
                        let ms = whole_millis(&elapsed);
                        self.last_hold = Ghost(Some((start_time, ms)));
                        hold_long_enough(ms, self.min_hold_duration_ms)
                    },
                    None => false,
                }
            },
            TouchPhase::Moved => false,
            TouchPhase::Canceled => {
                self.touch_starts.remove(&touch_event.id);
                false
            },
        }
    }
}

impl Default for TouchDurationTracker {
    fn default() -> (r: TouchDurationTracker)
        ensures
            r.min_hold() == 0,
            r.active_touches() == Set::<u64>::empty(),
            r.start_instants() == Map::<u64, Instant>::empty(),
    {
        TouchDurationTracker::new(0)
    }
}

/// Whether the scan of the triggers reaches a press-and-hold trigger for a
/// touch in `phase`: a press-and-hold trigger stands in the list and no any
/// click fires before it.
pub open spec fn hold_reached(triggers: Seq<InputTrigger>, phase: TouchPhase) -> bool {
    exists|k: int|
        0 <= k < triggers.len() && #[trigger] triggers[k] == InputTrigger::PressAndHold && forall|
            i: int,
        |
            0 <= i < k ==> !(#[trigger] triggers[i] == InputTrigger::AnyClick && phase
                == TouchPhase::Started)
}

/// Whether a touch event matches any of the configured triggers.
///
/// Triggers are tried in order and the scan stops at the first that fires:
/// an any click fires for a touch that starts; each press-and-hold trigger
/// reached hands the event to the tracker; the mouse triggers never fire.
pub fn matches_touch_input(
    triggers: &Vec<InputTrigger>,
    touch_event: &TouchInput,
    touch_tracker: &mut TouchDurationTracker,
) -> (r: bool)
    ensures
        final(touch_tracker).min_hold() == old(touch_tracker).min_hold(),
        final(touch_tracker).active_touches() == if hold_reached(triggers@, touch_event.phase) {
            touch_effect(old(touch_tracker).active_touches(), *touch_event)
        } else {
            old(touch_tracker).active_touches()
        },
        (touch_event.phase == TouchPhase::Started && triggers@.contains(InputTrigger::AnyClick))
            ==> r,
        r ==> (touch_event.phase == TouchPhase::Started && triggers@.contains(
            InputTrigger::AnyClick,
        )) || (touch_event.phase == TouchPhase::Ended && hold_reached(
            triggers@,
            touch_event.phase,
        ) && old(touch_tracker).active_touches().contains(touch_event.id)),
        (touch_event.phase == TouchPhase::Ended && hold_reached(triggers@, touch_event.phase)
            && old(touch_tracker).active_touches().contains(touch_event.id) && old(touch_tracker).min_hold() == 0) ==> r,
{
    let ghost initial = old(touch_tracker).active_touches();
    let ghost mut reached: bool = false;
    let mut i: usize = 0;
    while i < triggers.len()
        invariant
            i <= triggers@.len(),
            initial == old(touch_tracker).active_touches(),
            touch_tracker.min_hold() == old(touch_tracker).min_hold(),
            forall|j: int|
                0 <= j < i ==> !(#[trigger] triggers@[j] == InputTrigger::AnyClick
                    && touch_event.phase == TouchPhase::Started),
            reached == exists|j: int|
                0 <= j < i && #[trigger] triggers@[j] == InputTrigger::PressAndHold,
            touch_tracker.active_touches() == if reached {
                touch_effect(initial, *touch_event)
            } else {
                initial
            },
            (touch_event.phase == TouchPhase::Ended && initial.contains(touch_event.id)
                && old(touch_tracker).min_hold() == 0) ==> !reached,
        decreases triggers@.len() - i,
    {
        match triggers[i] {
            InputTrigger::PressAndHold => {
                let ghost before = touch_tracker.active_touches();
                let held = touch_tracker.handle_touch_event(touch_event);
                proof {
                    assert(touch_effect(touch_effect(initial, *touch_event), *touch_event)
                        == touch_effect(initial, *touch_event));
                    if held {
                        assert(hold_reached(triggers@, touch_event.phase)) by {
                            assert(triggers@[i as int] == InputTrigger::PressAndHold);
                        }
                        if reached {
                            assert(!before.contains(touch_event.id));
                        }
                    }
                    reached = true;
                }
                if held {
                    return true;
                }
            },
            InputTrigger::AnyClick => {
                if touch_event.phase == TouchPhase::Started {
                    proof {
                        assert(triggers@.contains(InputTrigger::AnyClick)) by {
                            assert(triggers@[i as int] == InputTrigger::AnyClick);
                        }
                        if reached {
                            let k = choose|j: int|
                                0 <= j < i && #[trigger] triggers@[j]
                                    == InputTrigger::PressAndHold;
                            assert(hold_reached(triggers@, touch_event.phase)) by {
                                assert(triggers@[k] == InputTrigger::PressAndHold);
                            }
                        }
                    }
                    return true;
                }
            },
            _ => {},
        }
        i = i + 1;
    }
    proof {
        assert(reached == hold_reached(triggers@, touch_event.phase)) by {
            if hold_reached(triggers@, touch_event.phase) {
                let k = choose|k: int|
                    0 <= k < triggers@.len() && #[trigger] triggers@[k]
                        == InputTrigger::PressAndHold && forall|j: int|
                        0 <= j < k ==> !(#[trigger] triggers@[j] == InputTrigger::AnyClick
                            && touch_event.phase == TouchPhase::Started);
                assert(triggers@[k] == InputTrigger::PressAndHold);
            }
            if reached {
                let k = choose|j: int|
                    0 <= j < i && #[trigger] triggers@[j] == InputTrigger::PressAndHold;
                assert(triggers@[k] == InputTrigger::PressAndHold);
            }
        }
        if touch_event.phase == TouchPhase::Started && triggers@.contains(InputTrigger::AnyClick) {
            let j = choose|j: int|
                0 <= j < triggers@.len() && triggers@[j] == InputTrigger::AnyClick;
            assert(!(triggers@[j] == InputTrigger::AnyClick && touch_event.phase
                == TouchPhase::Started));
        }
    }
    false
}


/// The state a task takes when it is clicked: a selected task is released,
/// any other is selected, except that a parent is released.
pub open spec fn clicked_state(s: SelectionState) -> SelectionState {
    match s {
        SelectionState::Unselected => SelectionState::Selected,
        SelectionState::Selected => SelectionState::Unselected,
        SelectionState::Descendant => SelectionState::Selected,
        SelectionState::Parent => SelectionState::Unselected,
    }
}

/// The state a task takes when it is clicked.
pub fn toggled_state(current: SelectionState) -> (r: SelectionState)
    ensures
        r == clicked_state(current),
{
    match current {
        SelectionState::Unselected => SelectionState::Selected,
        SelectionState::Selected => SelectionState::Unselected,
        SelectionState::Descendant => SelectionState::Selected,
        SelectionState::Parent => SelectionState::Unselected,
    }
}

/// The state a dependency takes when it is clicked: an unselected one is
/// selected; any other is released, as a descendant or parent cannot be
/// selected directly.
pub open spec fn dependency_clicked_state(s: SelectionState) -> SelectionState {
    match s {
        SelectionState::Unselected => SelectionState::Selected,
        _ => SelectionState::Unselected,
    }
}

/// The state a dependency takes when it is clicked.
pub fn toggled_dependency_state(current: SelectionState) -> (r: SelectionState)
    ensures
        r == dependency_clicked_state(current),
{
    match current {
        SelectionState::Unselected => SelectionState::Selected,
        SelectionState::Selected => SelectionState::Unselected,
        SelectionState::Descendant => SelectionState::Unselected,
        SelectionState::Parent => SelectionState::Unselected,
    }
}

/// Recorded dependency states hold each dependency at most once.
pub open spec fn entries_distinct(e: Seq<(DependencyId, SelectionState)>) -> bool {
    forall|i: int, j: int| 0 <= i < j < e.len() ==> (#[trigger] e[i]).0 != (#[trigger] e[j]).0
}

/// The recorded state of a dependency; unrecorded ones are unselected.
pub open spec fn lookup(e: Seq<(DependencyId, SelectionState)>, d: DependencyId) -> SelectionState {
    if exists|i: int| 0 <= i < e.len() && (#[trigger] e[i]).0 == d {
        e[choose|i: int| 0 <= i < e.len() && (#[trigger] e[i]).0 == d].1
    } else {
        SelectionState::Unselected
    }
}

/// With distinct entries, an entry gives the state of its dependency.
pub proof fn lemma_lookup_at(e: Seq<(DependencyId, SelectionState)>, i: int)
    requires
        entries_distinct(e),
        0 <= i < e.len(),
    ensures
        lookup(e, e[i].0) == e[i].1,
{
    let d = e[i].0;
    assert(exists|k: int| 0 <= k < e.len() && (#[trigger] e[k]).0 == d);
    let j = choose|k: int| 0 <= k < e.len() && (#[trigger] e[k]).0 == d;
    if j < i {
        assert(e[j].0 != e[i].0);
    } else if i < j {
        assert(e[i].0 != e[j].0);
    }
}

/// The selection states that the renderer keeps for tasks and dependencies.
pub struct SelectionResource {
    tasks: IdMap<SelectionState>,
    dependencies: Vec<(DependencyId, SelectionState)>,
}

impl SelectionResource {
    /// The records are consistent: each dependency is recorded once.
    pub closed spec fn wf(&self) -> bool {
        entries_distinct(self.dependencies@)
    }

    /// The state of a task; unrecorded tasks are unselected.
    pub closed spec fn task_state(&self, t: TaskId) -> SelectionState {
        if self.tasks@.contains_key(t) {
            self.tasks@[t]
        } else {
            SelectionState::Unselected
        }
    }

    /// The state of a dependency; unrecorded dependencies are unselected.
    pub closed spec fn dependency_state(&self, d: DependencyId) -> SelectionState {
        lookup(self.dependencies@, d)
    }

    /// Nothing selected.
    pub fn new() -> (r: SelectionResource)
        ensures
            r.wf(),
            forall|t: TaskId| #[trigger] r.task_state(t) == SelectionState::Unselected,
            forall|d: DependencyId| #[trigger] r.dependency_state(d) == SelectionState::Unselected,
    {
        SelectionResource { tasks: IdMap::new(), dependencies: Vec::new() }
    }

    /// The state of a task.
    pub fn get_task_state(&self, task_id: TaskId) -> (r: SelectionState)
        ensures
            r == self.task_state(task_id),
    {
        match self.tasks.get(task_id) {
            Some(s) => *s,
            None => SelectionState::Unselected,
        }
    }

    /// Sets the state of a task.
    pub fn set_task_state(&mut self, task_id: TaskId, state: SelectionState)
        requires
            old(self).wf(),
        ensures
            final(self).wf(),
            forall|t: TaskId| #[trigger] final(self).task_state(t) == if t == task_id {
                state
            } else {
                old(self).task_state(t)
            },
            forall|d: DependencyId| #[trigger] final(self).dependency_state(d) == old(self).dependency_state(d),
    {
        let _ = self.tasks.insert(task_id, state);
    }

    /// The state of a dependency.
    pub fn get_dependency_state(&self, dependency_id: DependencyId) -> (r: SelectionState)
        requires
            self.wf(),
        ensures
            r == self.dependency_state(dependency_id),
    {
        let mut i: usize = 0;
        while i < self.dependencies.len()
            invariant
                i <= self.dependencies@.len(),
                entries_distinct(self.dependencies@),
                forall|k: int| 0 <= k < i ==> (#[trigger] self.dependencies@[k]).0 != dependency_id,
            decreases self.dependencies@.len() - i,
        {
            if self.dependencies[i].0 == dependency_id {
                proof {
                    lemma_lookup_at(self.dependencies@, i as int);
                }
                return self.dependencies[i].1;
            }
            i = i + 1;
        }
        SelectionState::Unselected
    }

    /// Sets the state of a dependency.
    pub fn set_dependency_state(&mut self, dependency_id: DependencyId, state: SelectionState)
        requires
            old(self).wf(),
        ensures
            final(self).wf(),
            forall|t: TaskId| #[trigger] final(self).task_state(t) == old(self).task_state(t),
            forall|d: DependencyId| #[trigger] final(self).dependency_state(d) == if d == dependency_id {
                state
            } else {
                old(self).dependency_state(d)
            },
    {
        let ghost e0 = self.dependencies@;
        let mut i: usize = 0;
        while i < self.dependencies.len()
            invariant
                i <= self.dependencies@.len(),
                self.dependencies@ == e0,
                e0 == old(self).dependencies@,
                self.tasks == old(self).tasks,
                entries_distinct(e0),
                forall|k: int| 0 <= k < i ==> (#[trigger] e0[k]).0 != dependency_id,
            decreases self.dependencies@.len() - i,
        {
            if self.dependencies[i].0 == dependency_id {
                self.dependencies.set(i, (dependency_id, state));
                proof {
                    let e1 = self.dependencies@;
                    assert forall|a: int, b: int| 0 <= a < b < e1.len() implies (#[trigger] e1[a]).0
                        != (#[trigger] e1[b]).0 by {
                        assert(e0[a].0 != e0[b].0);
                    }
                    assert forall|d: DependencyId| #[trigger] lookup(e1, d) == if d == dependency_id {
                        state
                    } else {
                        lookup(e0, d)
                    } by {
                        lemma_lookup_at(e1, i as int);
                        if d != dependency_id {
                            if exists|k: int| 0 <= k < e0.len() && (#[trigger] e0[k]).0 == d {
                                let k = choose|k: int| 0 <= k < e0.len() && (#[trigger] e0[k]).0 == d;
                                lemma_lookup_at(e0, k);
                                assert(e1[k] == e0[k]);
                                lemma_lookup_at(e1, k);
                            } else {
                                assert forall|k: int| 0 <= k < e1.len() implies (#[trigger] e1[k]).0 != d by {
                                    if k != i {
                                        assert(e1[k] == e0[k]);
                                    }
                                }
                            }
                        }
                    }
                }
                return;
            }
            i = i + 1;
        }
        self.dependencies.push((dependency_id, state));
        proof {
            let e1 = self.dependencies@;
            assert forall|a: int, b: int| 0 <= a < b < e1.len() implies (#[trigger] e1[a]).0
                != (#[trigger] e1[b]).0 by {
                if b < e0.len() {
                    assert(e0[a].0 != e0[b].0);
                } else {
                    assert(e1[a] == e0[a]);
                }
            }
            assert forall|d: DependencyId| #[trigger] lookup(e1, d) == if d == dependency_id {
                state
            } else {
                lookup(e0, d)
            } by {
                lemma_lookup_at(e1, e0.len() as int);
                if d != dependency_id {
                    if exists|k: int| 0 <= k < e0.len() && (#[trigger] e0[k]).0 == d {
                        let k = choose|k: int| 0 <= k < e0.len() && (#[trigger] e0[k]).0 == d;
                        lemma_lookup_at(e0, k);
                        assert(e1[k] == e0[k]);
                        lemma_lookup_at(e1, k);
                    } else {
                        assert forall|k: int| 0 <= k < e1.len() implies (#[trigger] e1[k]).0 != d by {
                            if k < e0.len() {
                                assert(e1[k] == e0[k]);
                            }
                        }
                    }
                }
            }
        }
    }
}

/// Whether the walk from `start` (along the edges, or against them when
/// `rev`) reaches `t`, another task.
pub open spec fn marks(g: Graph, rev: bool, start: TaskId, t: TaskId) -> bool {
    t != start && reaches(g, rev, start, t)
}

/// The mark that the selected task `start` gives `t`: descendant when it
/// reaches `t`, else parent when `t` reaches it.
pub open spec fn mark_by(g: Graph, start: TaskId, t: TaskId) -> Option<SelectionState> {
    if marks(g, false, start, t) {
        Some(SelectionState::Descendant)
    } else if marks(g, true, start, t) {
        Some(SelectionState::Parent)
    } else {
        None
    }
}

/// The mark of the first selected task, in `order`, that marks `t`.
pub open spec fn first_marker(g: Graph, order: Seq<TaskId>, t: TaskId) -> Option<SelectionState>
    decreases order.len(),
{
    if order.len() == 0 {
        None
    } else {
        match first_marker(g, order.drop_last(), t) {
            Some(m) => Some(m),
            None => mark_by(g, order.last(), t),
        }
    }
}

/// Every task identifier, in increasing order.
pub open spec fn all_task_ids() -> Seq<TaskId> {
    Seq::new(256, |i: int| TaskId(i as u8))
}

/// The selected tasks of `r`, in increasing order.
pub open spec fn selected_order(r: SelectionResource) -> Seq<TaskId> {
    all_task_ids().filter(is_selected_in(r))
}

/// Whether a task is selected in `r`.
pub open spec fn is_selected_in(r: SelectionResource) -> spec_fn(TaskId) -> bool {
    |t: TaskId| r.task_state(t) == SelectionState::Selected
}

/// The state after the marks are recomputed: a selected task stays
/// selected; anything else takes its mark, or is unselected.
pub open spec fn settled(before: SelectionState, mark: Option<SelectionState>) -> SelectionState {
    if before == SelectionState::Selected {
        SelectionState::Selected
    } else {
        match mark {
            Some(m) => m,
            None => SelectionState::Unselected,
        }
    }
}

/// The mark of a dependency: that of the task it leads to, when it is one of
/// the drawn connections.
pub open spec fn dependency_mark(
    g: Graph,
    order: Seq<TaskId>,
    connections: Seq<DependencyId>,
    d: DependencyId,
) -> Option<SelectionState> {
    if connections.contains(d) {
        first_marker(g, order, d.to)
    } else {
        None
    }
}

/// A walk between two different tasks starts at a task of the graph.
proof fn lemma_reach_from_task(g: Graph, rev: bool, a: TaskId, b: TaskId)
    requires
        g.wf(),
        reaches(g, rev, a, b),
        a != b,
    ensures
        g.has_task(a),
{
    let p = choose|p: Seq<TaskId>| #[trigger] crate::traversal::is_walk(g, rev, p) && p[0] == a && p.last() == b;
    assert(p.len() >= 2);
    assert(crate::traversal::step(g, rev, p[0], p[0int + 1]));
}

/// Gives `mark` to every unselected task that the walk from `start` reaches,
/// and to every unselected connection leading to such a task.
fn mark_reachable(
    resource: &mut SelectionResource,
    start: TaskId,
    graph: &Graph,
    connections: &Vec<DependencyId>,
    rev: bool,
    mark: SelectionState,
)
    requires
        old(resource).wf(),
        graph.wf(),
    ensures
        final(resource).wf(),
        forall|t: TaskId| #[trigger] final(resource).task_state(t) == if old(resource).task_state(t)
            == SelectionState::Unselected && marks(*graph, rev, start, t) {
            mark
        } else {
            old(resource).task_state(t)
        },
        forall|d: DependencyId| #[trigger] final(resource).dependency_state(d) == if old(
            resource,
        ).dependency_state(d) == SelectionState::Unselected && connections@.contains(d) && marks(
            *graph,
            rev,
            start,
            d.to,
        ) {
            mark
        } else {
            old(resource).dependency_state(d)
        },
{
    let visits = if rev {
        graph.rev_dfs(start)
    } else {
        graph.dfs(start)
    };
    let ghost r0 = *old(resource);
    match visits {
        Err(_) => {
            proof {
                assert forall|t: TaskId| !marks(*graph, rev, start, t) by {
                    if marks(*graph, rev, start, t) {
                        lemma_reach_from_task(*graph, rev, start, t);
                    }
                }
            }
        },
        Ok(v) => {
            let mut k: usize = 0;
            while k < v.len()
                invariant
                    k <= v@.len(),
                    resource.wf(),
                    r0 == *old(resource),
                    crate::traversal::valid_traversal(*graph, rev, start, v@),
                    forall|t: TaskId| #[trigger] resource.task_state(t) == if r0.task_state(t)
                        == SelectionState::Unselected && t != start && firsts(v@.subrange(0, k as int)).contains(t) {
                        mark
                    } else {
                        r0.task_state(t)
                    },
                    forall|d: DependencyId| #[trigger] resource.dependency_state(d) == if r0.dependency_state(d)
                        == SelectionState::Unselected && connections@.contains(d) && d.to != start && firsts(
                        v@.subrange(0, k as int),
                    ).contains(d.to) {
                        mark
                    } else {
                        r0.dependency_state(d)
                    },
                decreases v@.len() - k,
            {
                let t = v[k].0;
                let ghost before = firsts(v@.subrange(0, k as int));
                let ghost after = firsts(v@.subrange(0, k + 1));
                proof {
                    assert(after == before.push(t)) by {
                        assert(v@.subrange(0, k + 1) == v@.subrange(0, k as int).push(v@[k as int]));
                    }
                    assert(!before.contains(t)) by {
                        if before.contains(t) {
                            let j = choose|j: int| 0 <= j < before.len() && before[j] == t;
                            assert(firsts(v@)[j] == t);
                            assert(firsts(v@)[k as int] == t);
                        }
                    }
                    assert forall|x: TaskId| #[trigger] after.contains(x) <==> before.contains(x) || x == t by {
                        if after.contains(x) && x != t {
                            let j = choose|j: int| 0 <= j < after.len() && after[j] == x;
                            assert(before[j] == x);
                        }
                        if before.contains(x) {
                            let j = choose|j: int| 0 <= j < before.len() && before[j] == x;
                            assert(after[j] == x);
                        }
                        if x == t {
                            assert(after[k as int] == x);
                        }
                    }
                }
                if t != start {
                    if resource.get_task_state(t) == SelectionState::Unselected {
                        resource.set_task_state(t, mark);
                    }
                    let ghost r1 = *resource;
                    let mut j: usize = 0;
                    while j < connections.len()
                        invariant
                            j <= connections@.len(),
                            resource.wf(),
                            t != start,
                            !before.contains(t),
                            forall|x: TaskId| #[trigger] resource.task_state(x) == r1.task_state(x),
                            forall|d: DependencyId| #[trigger] resource.dependency_state(d) == if r0.dependency_state(
                                d,
                            ) == SelectionState::Unselected && d.to != start && ((connections@.contains(d)
                                && before.contains(d.to)) || (connections@.subrange(0, j as int).contains(d)
                                && d.to == t)) {
                                mark
                            } else {
                                r0.dependency_state(d)
                            },
                        decreases connections@.len() - j,
                    {
                        let c = connections[j];
                        let ghost sub = connections@.subrange(0, j as int);
                        let ghost sub2 = connections@.subrange(0, j + 1);
                        proof {
                            assert(sub2 == sub.push(c));
                            assert forall|d: DependencyId| #[trigger] sub2.contains(d) <==> sub.contains(d) || d == c by {
                                if sub2.contains(d) && d != c {
                                    let q = choose|q: int| 0 <= q < sub2.len() && sub2[q] == d;
                                    assert(sub[q] == d);
                                }
                                if sub.contains(d) {
                                    let q = choose|q: int| 0 <= q < sub.len() && sub[q] == d;
                                    assert(sub2[q] == d);
                                }
                                if d == c {
                                    assert(sub2[j as int] == d);
                                }
                            }
                            assert(connections@.contains(c)) by {
                                assert(connections@[j as int] == c);
                            }
                        }
                        if c.to == t {
                            if resource.get_dependency_state(c) == SelectionState::Unselected {
                                resource.set_dependency_state(c, mark);
                            }
                        }
                        j = j + 1;
                    }
                    proof {
                        assert(connections@.subrange(0, connections@.len() as int) == connections@);
                    }
                } else {
                    proof {
                        assert forall|x: TaskId| #[trigger] after.contains(x) && x != start implies before.contains(x) by {}
                    }
                }
                k = k + 1;
            }
            proof {
                assert(v@.subrange(0, v@.len() as int) == v@);
            }
        },
    }
}

/// Marks every unselected task reachable from `start` as a descendant, and
/// every unselected connection leading to one of them.
pub fn mark_descendants_persistent(
    resource: &mut SelectionResource,
    start: TaskId,
    graph: &Graph,
    connections: &Vec<DependencyId>,
)
    requires
        old(resource).wf(),
        graph.wf(),
    ensures
        final(resource).wf(),
        forall|t: TaskId| #[trigger] final(resource).task_state(t) == if old(resource).task_state(t)
            == SelectionState::Unselected && marks(*graph, false, start, t) {
            SelectionState::Descendant
        } else {
            old(resource).task_state(t)
        },
        forall|d: DependencyId| #[trigger] final(resource).dependency_state(d) == if old(
            resource,
        ).dependency_state(d) == SelectionState::Unselected && connections@.contains(d) && marks(
            *graph,
            false,
            start,
            d.to,
        ) {
            SelectionState::Descendant
        } else {
            old(resource).dependency_state(d)
        },
{
    mark_reachable(resource, start, graph, connections, false, SelectionState::Descendant);
}

/// Marks every unselected task from which `start` is reachable as a parent,
/// and every unselected connection leading to one of them.
pub fn mark_parents_persistent(
    resource: &mut SelectionResource,
    start: TaskId,
    graph: &Graph,
    connections: &Vec<DependencyId>,
)
    requires
        old(resource).wf(),
        graph.wf(),
    ensures
        final(resource).wf(),
        forall|t: TaskId| #[trigger] final(resource).task_state(t) == if old(resource).task_state(t)
            == SelectionState::Unselected && marks(*graph, true, start, t) {
            SelectionState::Parent
        } else {
            old(resource).task_state(t)
        },
        forall|d: DependencyId| #[trigger] final(resource).dependency_state(d) == if old(
            resource,
        ).dependency_state(d) == SelectionState::Unselected && connections@.contains(d) && marks(
            *graph,
            true,
            start,
            d.to,
        ) {
            SelectionState::Parent
        } else {
            old(resource).dependency_state(d)
        },
{
    mark_reachable(resource, start, graph, connections, true, SelectionState::Parent);
}


/// A mark is always a descendant or a parent mark.
proof fn lemma_first_marker_kind(g: Graph, order: Seq<TaskId>, t: TaskId)
    ensures
        first_marker(g, order, t) matches Some(m) ==> m == SelectionState::Descendant || m
            == SelectionState::Parent,
    decreases order.len(),
{
    if order.len() > 0 {
        lemma_first_marker_kind(g, order.drop_last(), t);
    }
}

/// Appending an entry whose dependency is not recorded yet.
proof fn lemma_lookup_push(e: Seq<(DependencyId, SelectionState)>, x: (DependencyId, SelectionState))
    requires
        entries_distinct(e),
        forall|i: int| 0 <= i < e.len() ==> (#[trigger] e[i]).0 != x.0,
    ensures
        entries_distinct(e.push(x)),
        lookup(e.push(x), x.0) == x.1,
        forall|d: DependencyId| d != x.0 ==> #[trigger] lookup(e.push(x), d) == lookup(e, d),
{
    let e1 = e.push(x);
    assert forall|a: int, b: int| 0 <= a < b < e1.len() implies (#[trigger] e1[a]).0 != (#[trigger] e1[b]).0 by {
        if b < e.len() {
            assert(e[a].0 != e[b].0);
        } else {
            assert(e1[a] == e[a]);
        }
    }
    lemma_lookup_at(e1, e.len() as int);
    assert forall|d: DependencyId| d != x.0 implies #[trigger] lookup(e1, d) == lookup(e, d) by {
        if exists|k: int| 0 <= k < e.len() && (#[trigger] e[k]).0 == d {
            let k = choose|k: int| 0 <= k < e.len() && (#[trigger] e[k]).0 == d;
            lemma_lookup_at(e, k);
            assert(e1[k] == e[k]);
            lemma_lookup_at(e1, k);
        } else {
            assert forall|k: int| 0 <= k < e1.len() implies (#[trigger] e1[k]).0 != d by {
                if k < e.len() {
                    assert(e1[k] == e[k]);
                }
            }
        }
    }
}

/// Keeps only the selected records, which leaves everything else
/// unselected, and lists the selected tasks in increasing order.
fn keep_selected(resource: &SelectionResource) -> (r: (SelectionResource, Vec<TaskId>))
    requires
        resource.wf(),
    ensures
        r.0.wf(),
        forall|t: TaskId| #[trigger] r.0.task_state(t) == if resource.task_state(t) == SelectionState::Selected {
            SelectionState::Selected
        } else {
            SelectionState::Unselected
        },
        forall|d: DependencyId| #[trigger] r.0.dependency_state(d) == if resource.dependency_state(d)
            == SelectionState::Selected {
            SelectionState::Selected
        } else {
            SelectionState::Unselected
        },
        r.1@ == selected_order(*resource),
{
    let mut tasks: IdMap<SelectionState> = IdMap::new();
    let mut order: Vec<TaskId> = Vec::new();
    let mut i: u16 = 0;
    while i < 256
        invariant
            i <= 256,
            forall|t: TaskId| #[trigger] tasks@.contains_key(t) ==> tasks@[t] == SelectionState::Selected,
            forall|t: TaskId| #[trigger] tasks@.contains_key(t) <==> (t.0 < i && resource.task_state(t)
                == SelectionState::Selected),
            order@ == all_task_ids().subrange(0, i as int).filter(is_selected_in(*resource)),
        decreases 256 - i,
    {
        let t = TaskId(i as u8);
        proof {
            assert(all_task_ids().subrange(0, i + 1) =~= all_task_ids().subrange(0, i as int).push(t));
            all_task_ids().subrange(0, i as int).lemma_filter_push(t, is_selected_in(*resource));
        }
        if resource.get_task_state(t) == SelectionState::Selected {
            let _ = tasks.insert(t, SelectionState::Selected);
            order.push(t);
        }
        i = i + 1;
    }
    proof {
        assert(all_task_ids().subrange(0, 256) =~= all_task_ids());
    }
    let ghost e0 = resource.dependencies@;
    let mut deps: Vec<(DependencyId, SelectionState)> = Vec::new();
    let mut j: usize = 0;
    while j < resource.dependencies.len()
        invariant
            j <= e0.len(),
            e0 == resource.dependencies@,
            entries_distinct(e0),
            entries_distinct(deps@),
            forall|q: int| 0 <= q < deps@.len() ==> exists|p: int| 0 <= p < j && (#[trigger] e0[p]).0
                == (#[trigger] deps@[q]).0,
            forall|d: DependencyId| #[trigger] lookup(deps@, d) == if exists|p: int| 0 <= p < j
                && (#[trigger] e0[p]).0 == d && e0[p].1 == SelectionState::Selected {
                SelectionState::Selected
            } else {
                SelectionState::Unselected
            },
        decreases e0.len() - j,
    {
        let entry = resource.dependencies[j];
        let ghost d0 = deps@;
        if entry.1 == SelectionState::Selected {
            proof {
                assert forall|q: int| 0 <= q < d0.len() implies (#[trigger] d0[q]).0 != entry.0 by {
                    let p = choose|p: int| 0 <= p < j && (#[trigger] e0[p]).0 == d0[q].0;
                    assert(e0[p].0 != e0[j as int].0);
                }
                lemma_lookup_push(d0, entry);
            }
            deps.push(entry);
        }
        proof {
            assert forall|q: int| 0 <= q < deps@.len() implies exists|p: int| 0 <= p < j + 1
                && (#[trigger] e0[p]).0 == (#[trigger] deps@[q]).0 by {
                if q < d0.len() {
                    let p = choose|p: int| 0 <= p < j && (#[trigger] e0[p]).0 == d0[q].0;
                    assert(e0[p].0 == deps@[q].0);
                } else {
                    assert(e0[j as int].0 == deps@[q].0);
                }
            }
            assert forall|d: DependencyId| #[trigger] lookup(deps@, d) == if exists|p: int| 0 <= p < j + 1
                && (#[trigger] e0[p]).0 == d && e0[p].1 == SelectionState::Selected {
                SelectionState::Selected
            } else {
                SelectionState::Unselected
            } by {
                if d == entry.0 && entry.1 == SelectionState::Selected {
                    assert(e0[j as int].0 == d);
                } else if exists|p: int| 0 <= p < j + 1 && (#[trigger] e0[p]).0 == d && e0[p].1
                    == SelectionState::Selected {
                    let p = choose|p: int| 0 <= p < j + 1 && (#[trigger] e0[p]).0 == d && e0[p].1
                        == SelectionState::Selected;
                    if p == j {
                        assert(false);
                    }
                }
            }
        }
        j = j + 1;
    }
    let fresh = SelectionResource { tasks, dependencies: deps };
    proof {
        assert forall|d: DependencyId| #[trigger] fresh.dependency_state(d) == if resource.dependency_state(d)
            == SelectionState::Selected {
            SelectionState::Selected
        } else {
            SelectionState::Unselected
        } by {
            if exists|p: int| 0 <= p < e0.len() && (#[trigger] e0[p]).0 == d {
                let p = choose|p: int| 0 <= p < e0.len() && (#[trigger] e0[p]).0 == d;
                lemma_lookup_at(e0, p);
                if exists|q: int| 0 <= q < e0.len() && (#[trigger] e0[q]).0 == d && e0[q].1
                    == SelectionState::Selected {
                    let q = choose|q: int| 0 <= q < e0.len() && (#[trigger] e0[q]).0 == d && e0[q].1
                        == SelectionState::Selected;
                    if q < p {
                        assert(e0[q].0 != e0[p].0);
                    } else if p < q {
                        assert(e0[p].0 != e0[q].0);
                    }
                }
            }
        }
    }
    (fresh, order)
}

/// Recomputes the descendant and parent marks from the selected tasks.
///
/// Every mark is dropped; then, for each selected task in increasing order,
/// the unselected tasks it reaches become descendants and the unselected
/// tasks that reach it become parents, and so do the unselected connections
/// leading to them. Selected tasks and dependencies stay selected.
pub fn update_selection_states_persistent(
    resource: &mut SelectionResource,
    graph: &Graph,
    connections: &Vec<DependencyId>,
)
    requires
        old(resource).wf(),
        graph.wf(),
    ensures
        final(resource).wf(),
        forall|t: TaskId| #[trigger] final(resource).task_state(t) == settled(
            old(resource).task_state(t),
            first_marker(*graph, selected_order(*old(resource)), t),
        ),
        forall|d: DependencyId| #[trigger] final(resource).dependency_state(d) == settled(
            old(resource).dependency_state(d),
            dependency_mark(*graph, selected_order(*old(resource)), connections@, d),
        ),
{
    let ghost r0 = *old(resource);
    let (mut fresh, order) = keep_selected(resource);
    let mut i: usize = 0;
    while i < order.len()
        invariant
            i <= order@.len(),
            fresh.wf(),
            graph.wf(),
            order@ == selected_order(r0),
            forall|t: TaskId| #[trigger] fresh.task_state(t) == settled(
                r0.task_state(t),
                first_marker(*graph, order@.subrange(0, i as int), t),
            ),
            forall|d: DependencyId| #[trigger] fresh.dependency_state(d) == settled(
                r0.dependency_state(d),
                dependency_mark(*graph, order@.subrange(0, i as int), connections@, d),
            ),
        decreases order@.len() - i,
    {
        let s = order[i];
        let ghost prefix = order@.subrange(0, i as int);
        let ghost next = order@.subrange(0, i + 1);
        let ghost before = fresh;
        mark_descendants_persistent(&mut fresh, s, graph, connections);
        mark_parents_persistent(&mut fresh, s, graph, connections);
        proof {
            assert(next.drop_last() == prefix);
            assert(next.last() == s);
            assert forall|t: TaskId| #[trigger] fresh.task_state(t) == settled(
                r0.task_state(t),
                first_marker(*graph, next, t),
            ) by {
                lemma_first_marker_kind(*graph, prefix, t);
                assert(before.task_state(t) == settled(r0.task_state(t), first_marker(*graph, prefix, t)));
            }
            assert forall|d: DependencyId| #[trigger] fresh.dependency_state(d) == settled(
                r0.dependency_state(d),
                dependency_mark(*graph, next, connections@, d),
            ) by {
                lemma_first_marker_kind(*graph, prefix, d.to);
                assert(before.dependency_state(d) == settled(
                    r0.dependency_state(d),
                    dependency_mark(*graph, prefix, connections@, d),
                ));
            }
        }
        i = i + 1;
    }
    proof {
        assert(order@.subrange(0, order@.len() as int) == order@);
    }
    *resource = fresh;
}

/// The state of `t` once `clicked` has been clicked in `r`.
pub open spec fn after_click(r: SelectionResource, clicked: TaskId, t: TaskId) -> SelectionState {
    if t == clicked {
        clicked_state(r.task_state(clicked))
    } else {
        r.task_state(t)
    }
}

/// Whether a task is selected once `clicked` has been clicked in `r`.
pub open spec fn selected_after_click(r: SelectionResource, clicked: TaskId) -> spec_fn(TaskId) -> bool {
    |t: TaskId| after_click(r, clicked, t) == SelectionState::Selected
}

/// Clicks a task: toggles its selection (see `clicked_state`), then
/// recomputes the descendant and parent marks from the selected tasks.
pub fn handle_task_click(
    resource: &mut SelectionResource,
    task_id: TaskId,
    graph: &Graph,
    connections: &Vec<DependencyId>,
)
    requires
        old(resource).wf(),
        graph.wf(),
    ensures
        final(resource).wf(),
        forall|t: TaskId| #[trigger] final(resource).task_state(t) == settled(
            after_click(*old(resource), task_id, t),
            first_marker(*graph, all_task_ids().filter(selected_after_click(*old(resource), task_id)), t),
        ),
        forall|d: DependencyId| #[trigger] final(resource).dependency_state(d) == settled(
            old(resource).dependency_state(d),
            dependency_mark(
                *graph,
                all_task_ids().filter(selected_after_click(*old(resource), task_id)),
                connections@,
                d,
            ),
        ),
{
    let ghost r0 = *old(resource);
    let current = resource.get_task_state(task_id);
    let new_state = toggled_state(current);
    resource.set_task_state(task_id, new_state);
    proof {
        assert(is_selected_in(*resource) =~= selected_after_click(r0, task_id));
    }
    update_selection_states_persistent(resource, graph, connections);
}

/// A task picked out for a consumer outside the renderer.
#[derive(Debug, Clone, Copy, PartialEq, Eq, Structural)]
pub struct TaskSelectedForExternEvent {
    pub selected_task: TaskId,
    pub renderer_selection_state: SelectionState,
}

/// The event for a mouse event: when events are emitted, the event matches
/// a trigger and a task lies under the cursor, that task is selected.
pub fn extern_selection_for_mouse(
    emit_events: bool,
    triggers: &Vec<InputTrigger>,
    mouse_event: &MouseButtonInput,
    keyboard_input: &HeldModifiers,
    task_at_cursor: Option<TaskId>,
) -> (r: Option<TaskSelectedForExternEvent>)
    ensures
        r is Some <==> emit_events && task_at_cursor is Some && exists|i: int|
            0 <= i < triggers@.len() && #[trigger] mouse_trigger_fires(
                triggers@[i],
                mouse_event.button,
                mouse_event.state,
                *keyboard_input,
            ),
        r matches Some(e) ==> task_at_cursor == Some(e.selected_task) && e.renderer_selection_state
            == SelectionState::Selected,
{
    if !emit_events {
        return None;
    }
    if matches_mouse_input(triggers, mouse_event.button, mouse_event, keyboard_input) {
        match task_at_cursor {
            Some(task) => Some(
                TaskSelectedForExternEvent { selected_task: task, renderer_selection_state: SelectionState::Selected },
            ),
            None => None,
        }
    } else {
        None
    }
}

/// The event for a touch event: the touch is handed to the triggers (and
/// so to the tracker); when it matches and a task lies under it, that task
/// is selected. Nothing happens when events are not emitted.
pub fn extern_selection_for_touch(
    emit_events: bool,
    triggers: &Vec<InputTrigger>,
    touch_event: &TouchInput,
    touch_tracker: &mut TouchDurationTracker,
    task_at_touch: Option<TaskId>,
) -> (r: Option<TaskSelectedForExternEvent>)
    ensures
        !emit_events ==> r is None && final(touch_tracker).active_touches() == old(touch_tracker).active_touches(),
        final(touch_tracker).min_hold() == old(touch_tracker).min_hold(),
        emit_events ==> final(touch_tracker).active_touches() == if hold_reached(triggers@, touch_event.phase) {
            touch_effect(old(touch_tracker).active_touches(), *touch_event)
        } else {
            old(touch_tracker).active_touches()
        },
        (emit_events && task_at_touch is Some && touch_event.phase == TouchPhase::Started
            && triggers@.contains(InputTrigger::AnyClick)) ==> r is Some,
        (emit_events && task_at_touch is Some && touch_event.phase == TouchPhase::Ended
            && hold_reached(triggers@, touch_event.phase)
            && old(touch_tracker).active_touches().contains(touch_event.id)
            && old(touch_tracker).min_hold() == 0) ==> r is Some,
        r matches Some(e) ==> emit_events && task_at_touch == Some(e.selected_task)
            && e.renderer_selection_state == SelectionState::Selected,
        r is Some ==> (touch_event.phase == TouchPhase::Started && triggers@.contains(InputTrigger::AnyClick))
            || (touch_event.phase == TouchPhase::Ended && hold_reached(triggers@, touch_event.phase)
                && old(touch_tracker).active_touches().contains(touch_event.id)),
{
    if !emit_events {
        return None;
    }
    if matches_touch_input(triggers, touch_event, touch_tracker) {
        match task_at_touch {
            Some(task) => Some(
                TaskSelectedForExternEvent { selected_task: task, renderer_selection_state: SelectionState::Selected },
            ),
            None => None,
        }
    } else {
        None
    }
}

/// Whether the selection-change system emits events.
#[derive(Debug, Clone, Copy, PartialEq, Eq, Structural)]
pub enum EventEmission {
    /// Never emit.
    Never,
    /// Emit when the selection state changes.
    Changed,
    /// Emit on every report, changed or not.
    Always,
}

/// The selection state a task had before an update.
#[derive(Debug, Clone, Copy, PartialEq, Eq, Structural)]
pub struct PreviousSelectionState(pub SelectionState);

/// The selection state a task has after an update.
#[derive(Debug, Clone, Copy, PartialEq, Eq, Structural)]
pub struct NewSelectionState(pub SelectionState);

/// A task's selection state changed (or was reported, under `Always`).
#[derive(Debug, Clone, Copy, PartialEq, Eq, Structural)]
pub struct TaskSelectionChangedEvent {
    pub selected_task: TaskId,
    pub previous_selection_state: SelectionState,
    pub new_selection_state: SelectionState,
}

/// Emits selection-changed events according to its emission mode.
#[derive(Debug, Clone, Copy, PartialEq, Eq, Structural)]
pub struct TaskSelectionChangedEventSystem {
    pub emit_events: EventEmission,
}

/// Whether a report from `previous` to `new` is emitted under `mode`.
pub open spec fn emits(mode: EventEmission, previous: SelectionState, new: SelectionState) -> bool {
    match mode {
        EventEmission::Never => false,
        EventEmission::Changed => previous != new,
        EventEmission::Always => true,
    }
}

/// The events emitted, in order, for a sequence of task reports.
pub open spec fn emitted_events(
    mode: EventEmission,
    reports: Seq<(TaskId, PreviousSelectionState, NewSelectionState)>,
) -> Seq<TaskSelectionChangedEvent>
    decreases reports.len(),
{
    if reports.len() == 0 {
        Seq::empty()
    } else {
        let last = reports.last();
        let before = emitted_events(mode, reports.drop_last());
        if emits(mode, (last.1).0, (last.2).0) {
            before.push(
                TaskSelectionChangedEvent {
                    selected_task: last.0,
                    previous_selection_state: (last.1).0,
                    new_selection_state: (last.2).0,
                },
            )
        } else {
            before
        }
    }
}

impl Default for TaskSelectionChangedEventSystem {
    fn default() -> (r: TaskSelectionChangedEventSystem)
        ensures
            r.emit_events == EventEmission::Changed,
    {
        TaskSelectionChangedEventSystem { emit_events: EventEmission::Changed }
    }
}

impl TaskSelectionChangedEventSystem {
    /// Emits the event for one task's report, if the emission mode asks for it.
    pub fn emit_task_selection_changed(
        &self,
        events: &mut Vec<TaskSelectionChangedEvent>,
        selected_task: TaskId,
        previous_selection_state: SelectionState,
        new_selection_state: SelectionState,
    )
        ensures
            final(events)@ == if emits(
                self.emit_events,
                previous_selection_state,
                new_selection_state,
            ) {
                old(events)@.push(
                    TaskSelectionChangedEvent {
                        selected_task,
                        previous_selection_state,
                        new_selection_state,
                    },
                )
            } else {
                old(events)@
            },
    {
        let event = TaskSelectionChangedEvent {
            selected_task,
            previous_selection_state,
            new_selection_state,
        };
        match self.emit_events {
            EventEmission::Never => {},
            EventEmission::Changed => {
                if previous_selection_state != new_selection_state {
                    events.push(event);
                }
            },
            EventEmission::Always => {
                events.push(event);
            },
        }
    }

    /// Builds the system: a function from the reports of the tasks (task,
    /// previous state, new state) to the events emitted for them, in order.
    pub fn build(self) -> (system: impl Fn(
        &Vec<(TaskId, PreviousSelectionState, NewSelectionState)>,
    ) -> Vec<TaskSelectionChangedEvent>)
        ensures
            forall|reports: &Vec<(TaskId, PreviousSelectionState, NewSelectionState)>|
                #[trigger] system.requires((reports,)),
            forall|
                reports: &Vec<(TaskId, PreviousSelectionState, NewSelectionState)>,
                out: Vec<TaskSelectionChangedEvent>,
            |
                #[trigger] system.ensures((reports,), out) ==> out@ == emitted_events(
                    self.emit_events,
                    reports@,
                ),
    {
        move |reports: &Vec<(TaskId, PreviousSelectionState, NewSelectionState)>| -> (out: Vec<
            TaskSelectionChangedEvent,
        >)
            ensures
                out@ == emitted_events(self.emit_events, reports@),
            {
                let mut events: Vec<TaskSelectionChangedEvent> = Vec::new();
                let mut i: usize = 0;
                while i < reports.len()
                    invariant
                        i <= reports@.len(),
                        events@ == emitted_events(self.emit_events, reports@.subrange(0, i as int)),
                    decreases reports@.len() - i,
                {
                    let (task, previous, new) = reports[i];
                    proof {
                        assert(reports@.subrange(0, i + 1).drop_last() == reports@.subrange(
                            0,
                            i as int,
                        ));
                    }
                    self.emit_task_selection_changed(&mut events, task, previous.0, new.0);
                    i = i + 1;
                }
                proof {
                    assert(reports@.subrange(0, reports@.len() as int) == reports@);
                }
                events
            }
    }
}

} // verus!
