use roadline::ids::TaskId;
use roadline::selection::{
    hold_long_enough, matches_mouse_input, matches_touch_input, ButtonState, EdgeSelection, EventEmission,
    HeldModifiers, InputTrigger, MouseButton, MouseButtonInput, NewSelectionState, PreviousSelectionState,
    SelectionState, TaskSelectionChangedEvent, TaskSelectionChangedEventSystem, TouchDurationTracker, TouchInput,
    TouchPhase,
};

fn no_keys() -> HeldModifiers {
    HeldModifiers { shift_left: false, control_left: false, alt_left: false }
}

fn shift() -> HeldModifiers {
    HeldModifiers { shift_left: true, control_left: false, alt_left: false }
}

fn pressed(button: MouseButton) -> MouseButtonInput {
    MouseButtonInput { button, state: ButtonState::Pressed }
}

fn report(
    id: u8,
    previous: SelectionState,
    new: SelectionState,
) -> (TaskId, PreviousSelectionState, NewSelectionState) {
    (TaskId::new(id), PreviousSelectionState(previous), NewSelectionState(new))
}

// === touch ===

#[test]
fn test_touch_duration_tracker() {
    let mut tracker = TouchDurationTracker::new(500);

    let touch_start = TouchInput { id: 1, phase: TouchPhase::Started };
    assert!(!tracker.handle_touch_event(&touch_start));

    let touch_end_quick = TouchInput { id: 1, phase: TouchPhase::Ended };
    assert!(!tracker.handle_touch_event(&touch_end_quick));

    let touch_end_long = TouchInput { id: 2, phase: TouchPhase::Ended };
    assert!(!tracker.handle_touch_event(&touch_end_long));
}

#[test]
fn hold_threshold_is_inclusive() {
    assert!(hold_long_enough(500, 500));
    assert!(hold_long_enough(501, 500));
    assert!(!hold_long_enough(499, 500));
}

#[test]
fn zero_minimum_makes_every_started_touch_a_hold() {
    let mut tracker = TouchDurationTracker::new(0);
    assert!(!tracker.handle_touch_event(&TouchInput { id: 7, phase: TouchPhase::Started }));
    assert!(!tracker.handle_touch_event(&TouchInput { id: 7, phase: TouchPhase::Moved }));
    assert!(tracker.handle_touch_event(&TouchInput { id: 7, phase: TouchPhase::Ended }));
    assert!(!tracker.handle_touch_event(&TouchInput { id: 7, phase: TouchPhase::Ended }));
}

#[test]
fn canceled_touch_is_forgotten() {
    let mut tracker = TouchDurationTracker::new(0);
    assert!(!tracker.handle_touch_event(&TouchInput { id: 3, phase: TouchPhase::Started }));
    assert!(!tracker.handle_touch_event(&TouchInput { id: 3, phase: TouchPhase::Canceled }));
    assert!(!tracker.handle_touch_event(&TouchInput { id: 3, phase: TouchPhase::Ended }));
}

#[test]
fn touch_triggers_follow_their_order() {
    let mut tracker = TouchDurationTracker::new(0);
    let start = TouchInput { id: 1, phase: TouchPhase::Started };
    let end = TouchInput { id: 1, phase: TouchPhase::Ended };
    assert!(matches_touch_input(&vec![InputTrigger::AnyClick], &start, &mut tracker));
    assert!(!matches_touch_input(&vec![InputTrigger::LeftClick, InputTrigger::RightClick], &start, &mut tracker));
    assert!(!matches_touch_input(&vec![InputTrigger::PressAndHold], &start, &mut tracker));
    assert!(matches_touch_input(&vec![InputTrigger::AnyClick, InputTrigger::PressAndHold], &end, &mut tracker));
    assert!(!matches_touch_input(&vec![InputTrigger::PressAndHold], &end, &mut tracker));
}

// === mouse ===

#[test]
fn test_input_matcher_mouse_input() {
    let triggers = vec![InputTrigger::RightClick, InputTrigger::ShiftLeftClick];
    let mouse_input = pressed(MouseButton::Right);
    assert!(matches_mouse_input(&triggers, MouseButton::Right, &mouse_input, &no_keys()));
    assert!(!matches_mouse_input(&triggers, MouseButton::Left, &mouse_input, &no_keys()));
}

#[test]
fn test_input_trigger_left_click() {
    let triggers = vec![InputTrigger::LeftClick];
    let mouse_input = pressed(MouseButton::Left);
    assert!(matches_mouse_input(&triggers, MouseButton::Left, &mouse_input, &no_keys()));
    assert!(!matches_mouse_input(&triggers, MouseButton::Right, &mouse_input, &no_keys()));
}

#[test]
fn test_input_trigger_shift_left_click() {
    let triggers = vec![InputTrigger::ShiftLeftClick];
    let mouse_input = pressed(MouseButton::Left);
    assert!(matches_mouse_input(&triggers, MouseButton::Left, &mouse_input, &shift()));
    assert!(!matches_mouse_input(&triggers, MouseButton::Left, &mouse_input, &no_keys()));
}

#[test]
fn test_input_trigger_right_click() {
    let triggers = vec![InputTrigger::RightClick];
    let mouse_input = pressed(MouseButton::Right);
    assert!(matches_mouse_input(&triggers, MouseButton::Right, &mouse_input, &no_keys()));
    assert!(!matches_mouse_input(&triggers, MouseButton::Left, &mouse_input, &no_keys()));
}

#[test]
fn test_input_trigger_press_and_hold() {
    let triggers = vec![InputTrigger::PressAndHold];
    let mouse_input = pressed(MouseButton::Left);
    assert!(!matches_mouse_input(&triggers, MouseButton::Left, &mouse_input, &no_keys()));
}

#[test]
fn test_input_trigger_any_click() {
    let triggers = vec![InputTrigger::AnyClick];
    let mouse_input = pressed(MouseButton::Left);
    assert!(matches_mouse_input(&triggers, MouseButton::Left, &mouse_input, &no_keys()));
    assert!(matches_mouse_input(&triggers, MouseButton::Right, &mouse_input, &no_keys()));
    assert!(matches_mouse_input(&triggers, MouseButton::Middle, &mouse_input, &no_keys()));
}

#[test]
fn released_buttons_never_trigger() {
    let all = vec![
        InputTrigger::ShiftLeftClick,
        InputTrigger::RightClick,
        InputTrigger::PressAndHold,
        InputTrigger::LeftClick,
        InputTrigger::CtrlLeftClick,
        InputTrigger::AltLeftClick,
        InputTrigger::AnyClick,
    ];
    let released = MouseButtonInput { button: MouseButton::Left, state: ButtonState::Released };
    assert!(!matches_mouse_input(&all, MouseButton::Left, &released, &shift()));
}

#[test]
fn default_trigger_is_shift_left_click() {
    assert_eq!(InputTrigger::default(), InputTrigger::ShiftLeftClick);
}

// === edges ===

#[test]
fn edge_colours_follow_the_selection() {
    let (parent, selected, unselected) = (SelectionState::Parent, SelectionState::Selected, SelectionState::Unselected);
    let edge = EdgeSelection::new(parent, selected);
    assert!(edge.should_be_red());
    assert!(edge.is_connected_to_selection());
    let edge = EdgeSelection::new(selected, unselected);
    assert!(!edge.should_be_red());
    assert!(edge.is_connected_to_selection());
    let edge = EdgeSelection::new(parent, unselected);
    assert!(!edge.should_be_red());
    assert!(!edge.is_connected_to_selection());
    let edge = EdgeSelection::new(unselected, selected);
    assert!(!edge.is_connected_to_selection());
}

// === selection-changed events ===

#[test]
fn task_selection_changed_test_event_system_builds_correctly() {
    let event_system = TaskSelectionChangedEventSystem::default();
    let system_fn = event_system.build();
    let events = system_fn(&Vec::new());
    assert!(events.is_empty());
}

#[test]
fn task_selection_changed_test_event_system_with_tasks() {
    let event_system = TaskSelectionChangedEventSystem { emit_events: EventEmission::Always };
    let system_fn = event_system.build();
    let events = system_fn(&vec![report(1, SelectionState::Unselected, SelectionState::Selected)]);
    assert!(events.len() > 0, "Should emit events when EventEmission::Always is set");
}

#[test]
fn test_event_system_none_emission() {
    let event_system = TaskSelectionChangedEventSystem { emit_events: EventEmission::Never };
    let system_fn = event_system.build();
    let events = system_fn(&vec![report(1, SelectionState::Unselected, SelectionState::Selected)]);
    assert_eq!(events.len(), 0, "Should not emit events when EventEmission::None is set");
}

#[test]
fn test_event_system_changed_emission() {
    let event_system = TaskSelectionChangedEventSystem { emit_events: EventEmission::Changed };
    let system_fn = event_system.build();
    let events = system_fn(&vec![report(1, SelectionState::Unselected, SelectionState::Selected)]);
    assert_eq!(events.len(), 1, "Should emit events when states are different");
    let events = system_fn(&vec![report(1, SelectionState::Selected, SelectionState::Selected)]);
    assert_eq!(events.len(), 0, "Should not emit events when states are the same");
}

#[test]
fn task_selection_changed_test_event_system_direct_emission() {
    let event_system = TaskSelectionChangedEventSystem::default();
    let mut events = Vec::new();
    event_system.emit_task_selection_changed(
        &mut events,
        TaskId::new(1),
        SelectionState::Unselected,
        SelectionState::Selected,
    );
    assert_eq!(events.len(), 1, "Should emit one event when called directly");
    assert_eq!(
        events[0],
        TaskSelectionChangedEvent {
            selected_task: TaskId::new(1),
            previous_selection_state: SelectionState::Unselected,
            new_selection_state: SelectionState::Selected,
        }
    );
}

#[test]
fn always_reports_every_task_in_order() {
    let system_fn = TaskSelectionChangedEventSystem { emit_events: EventEmission::Always }.build();
    let events = system_fn(&vec![
        report(3, SelectionState::Selected, SelectionState::Selected),
        report(1, SelectionState::Parent, SelectionState::Unselected),
    ]);
    assert_eq!(events.len(), 2);
    assert_eq!(events[0].selected_task, TaskId::new(3));
    assert_eq!(events[1].selected_task, TaskId::new(1));
}

// === click propagation ===

use roadline::graph::Graph;
use roadline::ids::DependencyId;
use roadline::selection::{
    handle_task_click, toggled_dependency_state, toggled_state, update_selection_states_persistent, SelectionResource,
};

/// 1 -> 2 -> 3 and 4 -> 2, with a connection for each edge.
fn click_graph() -> (Graph, Vec<DependencyId>) {
    let mut graph = Graph::new();
    let edges = [(1u8, 2u8), (2, 3), (4, 2)];
    let mut connections = Vec::new();
    for (a, b) in edges {
        let id = DependencyId::new(TaskId::new(a), TaskId::new(b));
        graph.add_dependency(TaskId::new(a), id, TaskId::new(b)).unwrap();
        connections.push(id);
    }
    (graph, connections)
}

fn dep(a: u8, b: u8) -> DependencyId {
    DependencyId::new(TaskId::new(a), TaskId::new(b))
}

#[test]
fn clicking_a_task_marks_its_descendants_and_parents() {
    let (graph, connections) = click_graph();
    let mut resource = SelectionResource::new();
    handle_task_click(&mut resource, TaskId::new(2), &graph, &connections);
    assert_eq!(resource.get_task_state(TaskId::new(2)), SelectionState::Selected);
    assert_eq!(resource.get_task_state(TaskId::new(3)), SelectionState::Descendant);
    assert_eq!(resource.get_task_state(TaskId::new(1)), SelectionState::Parent);
    assert_eq!(resource.get_task_state(TaskId::new(4)), SelectionState::Parent);
    assert_eq!(resource.get_dependency_state(dep(2, 3)), SelectionState::Descendant);
    assert_eq!(resource.get_dependency_state(dep(1, 2)), SelectionState::Unselected);

    handle_task_click(&mut resource, TaskId::new(2), &graph, &connections);
    for i in 1..=4 {
        assert_eq!(resource.get_task_state(TaskId::new(i)), SelectionState::Unselected);
    }
    assert_eq!(resource.get_dependency_state(dep(2, 3)), SelectionState::Unselected);
}

#[test]
fn earlier_selected_tasks_mark_first() {
    let (graph, connections) = click_graph();
    let mut resource = SelectionResource::new();
    handle_task_click(&mut resource, TaskId::new(1), &graph, &connections);
    assert_eq!(resource.get_task_state(TaskId::new(3)), SelectionState::Descendant);
    handle_task_click(&mut resource, TaskId::new(3), &graph, &connections);
    assert_eq!(resource.get_task_state(TaskId::new(1)), SelectionState::Selected);
    assert_eq!(resource.get_task_state(TaskId::new(3)), SelectionState::Selected);
    assert_eq!(resource.get_task_state(TaskId::new(2)), SelectionState::Descendant);
    assert_eq!(resource.get_task_state(TaskId::new(4)), SelectionState::Parent);
    assert_eq!(resource.get_dependency_state(dep(1, 2)), SelectionState::Descendant);
    assert_eq!(resource.get_dependency_state(dep(2, 3)), SelectionState::Descendant);
    assert_eq!(resource.get_dependency_state(dep(4, 2)), SelectionState::Descendant);
}

#[test]
fn clicking_a_parent_releases_it() {
    let (graph, connections) = click_graph();
    let mut resource = SelectionResource::new();
    handle_task_click(&mut resource, TaskId::new(3), &graph, &connections);
    assert_eq!(resource.get_task_state(TaskId::new(1)), SelectionState::Parent);
    handle_task_click(&mut resource, TaskId::new(1), &graph, &connections);
    assert_eq!(resource.get_task_state(TaskId::new(1)), SelectionState::Parent);
    assert_eq!(resource.get_task_state(TaskId::new(3)), SelectionState::Selected);
}

#[test]
fn clicking_marked_tasks() {
    assert_eq!(toggled_state(SelectionState::Unselected), SelectionState::Selected);
    assert_eq!(toggled_state(SelectionState::Selected), SelectionState::Unselected);
    assert_eq!(toggled_state(SelectionState::Descendant), SelectionState::Selected);
    assert_eq!(toggled_state(SelectionState::Parent), SelectionState::Unselected);
}

#[test]
fn recomputing_keeps_selected_dependencies() {
    let (graph, connections) = click_graph();
    let mut resource = SelectionResource::new();
    resource.set_dependency_state(dep(4, 2), SelectionState::Selected);
    resource.set_task_state(TaskId::new(3), SelectionState::Parent);
    update_selection_states_persistent(&mut resource, &graph, &connections);
    assert_eq!(resource.get_dependency_state(dep(4, 2)), SelectionState::Selected);
    assert_eq!(resource.get_task_state(TaskId::new(3)), SelectionState::Unselected);
}

// === selection for external consumers ===

use roadline::selection::{extern_selection_for_mouse, extern_selection_for_touch};

#[test]
fn task_selected_for_extern_test_event_system_with_tasks() {
    let click = pressed(MouseButton::Left);
    let event = extern_selection_for_mouse(true, &vec![InputTrigger::AnyClick], &click, &no_keys(), Some(TaskId::new(1)));
    assert!(event.is_some(), "Should emit events when task is clicked");
    assert_eq!(event.unwrap().selected_task, TaskId::new(1));
    assert_eq!(event.unwrap().renderer_selection_state, SelectionState::Selected);
}

#[test]
fn test_event_system_disabled() {
    let click = pressed(MouseButton::Left);
    let event = extern_selection_for_mouse(false, &vec![InputTrigger::AnyClick], &click, &no_keys(), Some(TaskId::new(1)));
    assert!(event.is_none(), "Should not emit events when emit_events is false");
}

#[test]
fn no_task_under_the_cursor_selects_nothing() {
    let click = pressed(MouseButton::Right);
    assert!(extern_selection_for_mouse(true, &vec![InputTrigger::RightClick], &click, &no_keys(), None).is_none());
    assert!(extern_selection_for_mouse(true, &vec![InputTrigger::LeftClick], &click, &no_keys(), Some(TaskId::new(2))).is_none());
}

#[test]
fn touches_select_through_their_triggers() {
    let mut tracker = TouchDurationTracker::new(0);
    let start = TouchInput { id: 9, phase: TouchPhase::Started };
    let end = TouchInput { id: 9, phase: TouchPhase::Ended };
    let any = vec![InputTrigger::AnyClick];
    let hold = vec![InputTrigger::PressAndHold];
    assert!(extern_selection_for_touch(true, &any, &start, &mut tracker, Some(TaskId::new(4))).is_some());
    assert!(extern_selection_for_touch(true, &hold, &start, &mut tracker, Some(TaskId::new(4))).is_none());
    let held = extern_selection_for_touch(true, &hold, &end, &mut tracker, Some(TaskId::new(4)));
    assert_eq!(held.map(|e| e.selected_task), Some(TaskId::new(4)));
    assert!(extern_selection_for_touch(false, &any, &start, &mut tracker, Some(TaskId::new(4))).is_none());
}

// === highlights ===

use roadline::selection::{edge_highlight, task_hover_highlight, Highlight};

#[test]
fn test_hover_skips_selected_tasks() {
    assert_eq!(task_hover_highlight(SelectionState::Selected, true), Highlight::Keep);
    assert_eq!(task_hover_highlight(SelectionState::Parent, true), Highlight::Keep);
    assert_eq!(task_hover_highlight(SelectionState::Unselected, true), Highlight::Hover);
}

#[test]
fn test_hover_outside_bounds() {
    assert_eq!(task_hover_highlight(SelectionState::Unselected, false), Highlight::Plain);
}

#[test]
fn edges_take_the_colour_of_their_selection() {
    let red = EdgeSelection::new(SelectionState::Parent, SelectionState::Descendant);
    let blue = EdgeSelection::new(SelectionState::Descendant, SelectionState::Unselected);
    let plain = EdgeSelection::new(SelectionState::Unselected, SelectionState::Selected);
    assert_eq!(edge_highlight(red, false), Highlight::Parent);
    assert_eq!(edge_highlight(blue, true), Highlight::Selected);
    assert_eq!(edge_highlight(plain, true), Highlight::Hover);
    assert_eq!(edge_highlight(plain, false), Highlight::Plain);
}

#[test]
fn clicking_a_dependency_toggles_it() {
    assert_eq!(toggled_dependency_state(SelectionState::Unselected), SelectionState::Selected);
    assert_eq!(toggled_dependency_state(SelectionState::Selected), SelectionState::Unselected);
    assert_eq!(toggled_dependency_state(SelectionState::Descendant), SelectionState::Unselected);
}
