use graph_simulator::components::{
    interaction_for, interaction_updates, EditorState, Edge, GraphInteraction, Vertex,
};
use graph_simulator::distance_item::DistanceItem;
use graph_simulator::input::{
    selection_step, touch_step, ActionChange, CameraMovement, NormalInput, SelectionStep,
    TouchPhase, TouchStep, TRIGGER_MAX_TIME,
};

#[test]
fn editor_starts_out_adding() {
    assert_eq!(EditorState::default(), EditorState::Add);
    assert_ne!(EditorState::Edit, EditorState::Delete);
}

#[test]
fn markers_and_actions_are_plain_values() {
    assert_eq!(Vertex, Vertex);
    assert_eq!(Edge, Edge);
    assert_eq!(CameraMovement::Zoom, CameraMovement::Zoom);
    assert_ne!(NormalInput::Pressed, NormalInput::Select);
}

#[test]
fn interaction_depends_on_distance_and_button() {
    // 50 squared is 2500.
    assert_eq!(interaction_for(2500, 50, false), GraphInteraction::Hovered);
    assert_eq!(interaction_for(2500, 50, true), GraphInteraction::Pressed);
    assert_eq!(interaction_for(2501, 50, false), GraphInteraction::Untouched);
    assert_eq!(interaction_for(2501, 50, true), GraphInteraction::Untouched);
    assert_eq!(interaction_for(0, 0, true), GraphInteraction::Pressed);
    assert_eq!(interaction_for(1, 0, true), GraphInteraction::Untouched);
    let widest: u128 = u32::MAX as u128 * u32::MAX as u128;
    assert_eq!(interaction_for(widest, u32::MAX, false), GraphInteraction::Hovered);
    assert_eq!(interaction_for(widest + 1, u32::MAX, false), GraphInteraction::Untouched);
}

#[test]
fn updates_reset_the_last_items_first() {
    let last = [DistanceItem(1, 10), DistanceItem(2, 20)];
    let nearest = [DistanceItem(2, 16), DistanceItem(3, 26)];
    assert_eq!(
        interaction_updates(&last, &nearest, 5, true),
        vec![
            (1, GraphInteraction::Untouched),
            (2, GraphInteraction::Untouched),
            (2, GraphInteraction::Pressed),
            (3, GraphInteraction::Untouched),
        ]
    );
    assert_eq!(
        interaction_updates(&[], &nearest, 6, false),
        vec![(2, GraphInteraction::Hovered), (3, GraphInteraction::Hovered)]
    );
    assert!(interaction_updates(&[], &[], 6, false).is_empty());
}

#[test]
fn pressing_starts_the_clock() {
    assert_eq!(
        selection_step(true, true, false, Some(77), 5),
        SelectionStep { held_for: Some(0), change: None }
    );
    assert_eq!(
        selection_step(true, false, true, None, 5),
        SelectionStep { held_for: Some(0), change: None }
    );
}

#[test]
fn holding_adds_up_the_time() {
    assert_eq!(
        selection_step(false, true, false, Some(100), 16),
        SelectionStep { held_for: Some(116), change: None }
    );
    assert_eq!(
        selection_step(false, true, false, None, 16),
        SelectionStep { held_for: Some(16), change: None }
    );
    assert_eq!(
        selection_step(false, true, true, Some(u64::MAX - 3), 16),
        SelectionStep { held_for: Some(u64::MAX), change: None }
    );
}

#[test]
fn a_short_press_selects() {
    let select = Some(ActionChange::Press(NormalInput::Select));
    assert_eq!(TRIGGER_MAX_TIME, 500_000);
    assert_eq!(
        selection_step(false, false, true, Some(500_000), 16),
        SelectionStep { held_for: Some(500_000), change: select }
    );
    assert_eq!(
        selection_step(false, false, true, Some(500_001), 16),
        SelectionStep { held_for: Some(500_001), change: None }
    );
    assert_eq!(
        selection_step(false, false, true, None, 16),
        SelectionStep { held_for: None, change: None }
    );
}

#[test]
fn an_idle_button_releases_the_selection() {
    assert_eq!(
        selection_step(false, false, false, Some(3), 16),
        SelectionStep {
            held_for: Some(3),
            change: Some(ActionChange::Release(NormalInput::Select))
        }
    );
}

#[test]
fn touches_press_and_release_the_button() {
    let press = Some(ActionChange::Press(NormalInput::Pressed));
    let release = Some(ActionChange::Release(NormalInput::Pressed));
    assert_eq!(touch_step(TouchPhase::Started), TouchStep { keeps_place: true, change: press });
    assert_eq!(touch_step(TouchPhase::Moved), TouchStep { keeps_place: true, change: None });
    assert_eq!(touch_step(TouchPhase::Ended), TouchStep { keeps_place: true, change: release });
    assert_eq!(
        touch_step(TouchPhase::Canceled),
        TouchStep { keeps_place: false, change: release }
    );
}
