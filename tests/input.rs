use bhumi::InputEvent::{
    EmergencyBrake, GentleStop, LookPitchDown, LookPitchUp, LookRollLeft, LookRollRight, LookYawLeft, LookYawRight, Reset,
    SteerPitchDown, SteerPitchUp, SteerRollLeft, SteerRollRight, SteerYawRight, Stop, ThrustBackward, ThrustDown,
    ThrustForward, ThrustLeft, ThrustRight, ThrustUp,
};
use bhumi::{collect_controls, CameraMode, DroneCommand, InputEvent};

#[test]
fn no_events_ask_for_nothing() {
    let c = collect_controls(&[]);
    assert_eq!(c.thrust, [0, 0, 0]);
    assert_eq!(c.steer, [0, 0, 0]);
    assert_eq!(c.look, [0, 0, 0]);
    assert_eq!(c.camera_mode, None);
    assert!(c.commands.is_empty());
}

#[test]
fn thrust_forward_pushes_along_positive_z() {
    let c = collect_controls(&[InputEvent::ThrustForward]);
    assert_eq!(c.thrust, [0, 0, 300]);
    assert!(c.thrust[2] > 0);
}

#[test]
fn thrust_events_add_up_per_axis() {
    let c = collect_controls(&[ThrustForward, ThrustForward, ThrustBackward, ThrustLeft, ThrustUp, ThrustUp, ThrustDown, ThrustRight, ThrustRight]);
    assert_eq!(c.thrust, [300, 500, 300]);
    assert_eq!(c.steer, [0, 0, 0]);
}

#[test]
fn steer_and_look_are_separate() {
    let c = collect_controls(&[SteerPitchUp, SteerYawRight, SteerYawRight, SteerRollLeft, LookYawLeft, LookPitchDown, LookRollRight]);
    assert_eq!(c.steer, [-20, 40, -20]);
    assert_eq!(c.look, [20, -20, 20]);
    assert_eq!(c.thrust, [0, 0, 0]);
    let d = collect_controls(&[SteerPitchDown, SteerRollRight, LookPitchUp, LookYawRight, LookRollLeft]);
    assert_eq!(d.steer, [20, 0, 20]);
    assert_eq!(d.look, [-20, 20, -20]);
}

#[test]
fn last_camera_mode_wins() {
    let c = collect_controls(&[
        InputEvent::CameraMode(CameraMode::Free),
        InputEvent::ThrustUp,
        InputEvent::CameraMode(CameraMode::FirstPerson),
    ]);
    assert_eq!(c.camera_mode, Some(CameraMode::FirstPerson));
    let d = collect_controls(&[InputEvent::CameraMode(CameraMode::ThirdPerson), InputEvent::Reset]);
    assert_eq!(d.camera_mode, Some(CameraMode::ThirdPerson));
}

#[test]
fn commands_keep_event_order() {
    let c = collect_controls(&[GentleStop, ThrustForward, Reset, EmergencyBrake, Stop, GentleStop]);
    assert_eq!(
        c.commands,
        vec![DroneCommand::GentleStop, DroneCommand::Reset, DroneCommand::EmergencyBrake, DroneCommand::Stop, DroneCommand::GentleStop]
    );
    assert_eq!(c.thrust, [0, 0, 300]);
}

#[test]
fn exit_is_ignored() {
    let c = collect_controls(&[InputEvent::Exit, InputEvent::Exit]);
    assert_eq!(c.thrust, [0, 0, 0]);
    assert_eq!(c.camera_mode, None);
    assert!(c.commands.is_empty());
}

#[test]
fn many_events_accumulate() {
    let events = vec![InputEvent::ThrustDown; 10_000];
    let c = collect_controls(&events);
    assert_eq!(c.thrust, [0, -5_000_000, 0]);
}
