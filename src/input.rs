use vstd::prelude::*;

verus! {

/// How the camera follows the drone.
#[derive(Clone, Copy, Debug, PartialEq, Eq, Structural)]
pub enum CameraMode {
    FirstPerson,
    ThirdPerson,
    Free,
}

/// One input from a front-end, consumed once by the frame update.
#[derive(Clone, Copy, Debug, PartialEq, Eq, Structural)]
pub enum InputEvent {
    ThrustForward,
    ThrustBackward,
    ThrustLeft,
    ThrustRight,
    ThrustUp,
    ThrustDown,
    SteerPitchUp,
    SteerPitchDown,
    SteerYawLeft,
    SteerYawRight,
    SteerRollLeft,
    SteerRollRight,
    LookPitchUp,
    LookPitchDown,
    LookYawLeft,
    LookYawRight,
    LookRollLeft,
    LookRollRight,
    CameraMode(CameraMode),
    Reset,
    GentleStop,
    EmergencyBrake,
    Stop,
    Exit,
}

/// An action on the drone that takes effect at once, in event order.
#[derive(Clone, Copy, Debug, PartialEq, Eq, Structural)]
pub enum DroneCommand {
    /// Back to the start pose, at rest.
    Reset,
    /// All velocity zeroed.
    Stop,
    /// Velocity scaled down slightly.
    GentleStop,
    /// Velocity scaled down sharply.
    EmergencyBrake,
}

/// Thrust of one forward, backward, left or right input, in millinewtons.
pub const THRUST_HORIZONTAL_MILLI: i128 = 300;

/// Thrust of one up or down input, in millinewtons.
pub const THRUST_VERTICAL_MILLI: i128 = 500;

/// Rotation of one steer input, in milliradians.
pub const STEER_STEP_MILLI: i128 = 20;

/// Rotation of one look input, in milliradians.
pub const LOOK_STEP_MILLI: i128 = 20;

/// Thrust that one event adds, per world axis (x right, y up, z forward).
pub open spec fn thrust_delta(e: InputEvent) -> (int, int, int) {
    match e {
        InputEvent::ThrustForward => (0, 0, THRUST_HORIZONTAL_MILLI as int),
        InputEvent::ThrustBackward => (0, 0, -THRUST_HORIZONTAL_MILLI),
        InputEvent::ThrustLeft => (-THRUST_HORIZONTAL_MILLI, 0, 0),
        InputEvent::ThrustRight => (THRUST_HORIZONTAL_MILLI as int, 0, 0),
        InputEvent::ThrustUp => (0, THRUST_VERTICAL_MILLI as int, 0),
        InputEvent::ThrustDown => (0, -THRUST_VERTICAL_MILLI, 0),
        _ => (0, 0, 0),
    }
}

/// Rotation of the drone that one event adds, about x (pitch), y (yaw) and
/// z (roll).
pub open spec fn steer_delta(e: InputEvent) -> (int, int, int) {
    match e {
        InputEvent::SteerPitchUp => (-STEER_STEP_MILLI, 0, 0),
        InputEvent::SteerPitchDown => (STEER_STEP_MILLI as int, 0, 0),
        InputEvent::SteerYawLeft => (0, -STEER_STEP_MILLI, 0),
        InputEvent::SteerYawRight => (0, STEER_STEP_MILLI as int, 0),
        InputEvent::SteerRollLeft => (0, 0, -STEER_STEP_MILLI),
        InputEvent::SteerRollRight => (0, 0, STEER_STEP_MILLI as int),
        _ => (0, 0, 0),
    }
}

/// Rotation of the free-look view that one event adds, about the same axes.
pub open spec fn look_delta(e: InputEvent) -> (int, int, int) {
    match e {
        InputEvent::LookPitchUp => (-LOOK_STEP_MILLI, 0, 0),
        InputEvent::LookPitchDown => (LOOK_STEP_MILLI as int, 0, 0),
        InputEvent::LookYawLeft => (0, -LOOK_STEP_MILLI, 0),
        InputEvent::LookYawRight => (0, LOOK_STEP_MILLI as int, 0),
        InputEvent::LookRollLeft => (0, 0, -LOOK_STEP_MILLI),
        InputEvent::LookRollRight => (0, 0, LOOK_STEP_MILLI as int),
        _ => (0, 0, 0),
    }
}

/// The immediate drone action an event asks for, if any.
pub open spec fn command_of(e: InputEvent) -> Option<DroneCommand> {
    match e {
        InputEvent::Reset => Some(DroneCommand::Reset),
        InputEvent::Stop => Some(DroneCommand::Stop),
        InputEvent::GentleStop => Some(DroneCommand::GentleStop),
        InputEvent::EmergencyBrake => Some(DroneCommand::EmergencyBrake),
        _ => None,
    }
}

/// Sum of `f` over `events`, per axis.
pub open spec fn total(events: Seq<InputEvent>, f: spec_fn(InputEvent) -> (int, int, int)) -> (int, int, int)
    decreases events.len(),
{
    if events.len() == 0 {
        (0, 0, 0)
    } else {
        let s = total(events.drop_last(), f);
        let d = f(events.last());
        (s.0 + d.0, s.1 + d.1, s.2 + d.2)
    }
}

/// The drone commands of `events`, in order.
pub open spec fn commands_of(events: Seq<InputEvent>) -> Seq<DroneCommand>
    decreases events.len(),
{
    if events.len() == 0 {
        seq![]
    } else {
        commands_of(events.drop_last()) + match command_of(events.last()) {
            Some(c) => seq![c],
            None => seq![],
        }
    }
}

/// The camera mode chosen last in `events`, if any.
pub open spec fn camera_mode_of(events: Seq<InputEvent>) -> Option<CameraMode>
    decreases events.len(),
{
    if events.len() == 0 {
        None
    } else {
        match events.last() {
            InputEvent::CameraMode(m) => Some(m),
            _ => camera_mode_of(events.drop_last()),
        }
    }
}

/// What one frame's input asks of the simulation: thrust and rotation
/// totals, a camera mode switch, and the drone commands in event order.
/// Each frame starts from nothing; no total carries over to the next frame.
pub struct FrameControls {
    /// Thrust in millinewtons along x, y, z.
    pub thrust: [i128; 3],
    /// Drone rotation in milliradians about x, y, z.
    pub steer: [i128; 3],
    /// Free-look rotation in milliradians about x, y, z.
    pub look: [i128; 3],
    pub camera_mode: Option<CameraMode>,
    pub commands: Vec<DroneCommand>,
}

impl FrameControls {
    /// `self` is what the events `events` ask for.
    pub open spec fn reflects(&self, events: Seq<InputEvent>) -> bool {
        &&& (self.thrust[0] as int, self.thrust[1] as int, self.thrust[2] as int) == total(events, |e| thrust_delta(e))
        &&& (self.steer[0] as int, self.steer[1] as int, self.steer[2] as int) == total(events, |e| steer_delta(e))
        &&& (self.look[0] as int, self.look[1] as int, self.look[2] as int) == total(events, |e| look_delta(e))
        &&& self.camera_mode == camera_mode_of(events)
        &&& self.commands@ == commands_of(events)
    }
}

proof fn lemma_total_bound(events: Seq<InputEvent>, f: spec_fn(InputEvent) -> (int, int, int), b: int)
    requires
        b >= 0,
        forall|e: InputEvent| -b <= (#[trigger] f(e)).0 <= b && -b <= f(e).1 <= b && -b <= f(e).2 <= b,
    ensures
        -b * events.len() <= total(events, f).0 <= b * events.len(),
        -b * events.len() <= total(events, f).1 <= b * events.len(),
        -b * events.len() <= total(events, f).2 <= b * events.len(),
    decreases events.len(),
{
    if events.len() > 0 {
        let rest = events.drop_last();
        lemma_total_bound(rest, f, b);
        let d = f(events.last());
        assert(-b <= d.0 <= b && -b <= d.1 <= b && -b <= d.2 <= b);
        assert(b * events.len() == b * rest.len() + b) by (nonlinear_arith)
            requires
                rest.len() + 1 == events.len(),
        ;
        assert(-b * events.len() == -(b * events.len())) by (nonlinear_arith);
        assert(-b * rest.len() == -(b * rest.len())) by (nonlinear_arith);
    } else {
        assert(b * events.len() == 0) by (nonlinear_arith)
            requires
                events.len() == 0,
        ;
        assert(-b * events.len() == 0) by (nonlinear_arith)
            requires
                events.len() == 0,
        ;
    }
}

/// Bound on a running total, far above what any slice of events can reach.
const ACC_LIMIT: i128 = 1_000_000_000_000_000_000_000_000_000_000;

fn add3(acc: &mut [i128; 3], d: (i128, i128, i128))
    requires
        -ACC_LIMIT <= old(acc)[0] <= ACC_LIMIT,
        -ACC_LIMIT <= old(acc)[1] <= ACC_LIMIT,
        -ACC_LIMIT <= old(acc)[2] <= ACC_LIMIT,
        -1000 <= d.0 <= 1000,
        -1000 <= d.1 <= 1000,
        -1000 <= d.2 <= 1000,
    ensures
        final(acc)[0] == old(acc)[0] + d.0,
        final(acc)[1] == old(acc)[1] + d.1,
        final(acc)[2] == old(acc)[2] + d.2,
{
    acc[0] = acc[0] + d.0;
    acc[1] = acc[1] + d.1;
    acc[2] = acc[2] + d.2;
}

fn thrust_step(e: InputEvent) -> (r: (i128, i128, i128))
    ensures
        (r.0 as int, r.1 as int, r.2 as int) == thrust_delta(e),
{
    match e {
        InputEvent::ThrustForward => (0, 0, THRUST_HORIZONTAL_MILLI),
        InputEvent::ThrustBackward => (0, 0, -THRUST_HORIZONTAL_MILLI),
        InputEvent::ThrustLeft => (-THRUST_HORIZONTAL_MILLI, 0, 0),
        InputEvent::ThrustRight => (THRUST_HORIZONTAL_MILLI, 0, 0),
        InputEvent::ThrustUp => (0, THRUST_VERTICAL_MILLI, 0),
        InputEvent::ThrustDown => (0, -THRUST_VERTICAL_MILLI, 0),
        _ => (0, 0, 0),
    }
}

fn steer_step(e: InputEvent) -> (r: (i128, i128, i128))
    ensures
        (r.0 as int, r.1 as int, r.2 as int) == steer_delta(e),
{
    match e {
        InputEvent::SteerPitchUp => (-STEER_STEP_MILLI, 0, 0),
        InputEvent::SteerPitchDown => (STEER_STEP_MILLI, 0, 0),
        InputEvent::SteerYawLeft => (0, -STEER_STEP_MILLI, 0),
        InputEvent::SteerYawRight => (0, STEER_STEP_MILLI, 0),
        InputEvent::SteerRollLeft => (0, 0, -STEER_STEP_MILLI),
        InputEvent::SteerRollRight => (0, 0, STEER_STEP_MILLI),
        _ => (0, 0, 0),
    }
}

fn look_step(e: InputEvent) -> (r: (i128, i128, i128))
    ensures
        (r.0 as int, r.1 as int, r.2 as int) == look_delta(e),
{
    match e {
        InputEvent::LookPitchUp => (-LOOK_STEP_MILLI, 0, 0),
        InputEvent::LookPitchDown => (LOOK_STEP_MILLI, 0, 0),
        InputEvent::LookYawLeft => (0, -LOOK_STEP_MILLI, 0),
        InputEvent::LookYawRight => (0, LOOK_STEP_MILLI, 0),
        InputEvent::LookRollLeft => (0, 0, -LOOK_STEP_MILLI),
        InputEvent::LookRollRight => (0, 0, LOOK_STEP_MILLI),
        _ => (0, 0, 0),
    }
}

fn command_step(e: InputEvent) -> (r: Option<DroneCommand>)
    ensures
        r == command_of(e),
{
    match e {
        InputEvent::Reset => Some(DroneCommand::Reset),
        InputEvent::Stop => Some(DroneCommand::Stop),
        InputEvent::GentleStop => Some(DroneCommand::GentleStop),
        InputEvent::EmergencyBrake => Some(DroneCommand::EmergencyBrake),
        _ => None,
    }
}

/// Gathers one frame's events into thrust and rotation totals, the last
/// camera mode chosen, and the drone commands in the order they came.
/// `Exit` is left to the front-end and contributes nothing.
pub fn collect_controls(events: &[InputEvent]) -> (r: FrameControls)
    ensures
        r.reflects(events@),
{
    let mut r = FrameControls {
        thrust: [0, 0, 0],
        steer: [0, 0, 0],
        look: [0, 0, 0],
        camera_mode: None,
        commands: Vec::new(),
    };
    proof {
        assert(events@.subrange(0, 0) =~= Seq::<InputEvent>::empty());
    }
    let mut i: usize = 0;
    while i < events.len()
        invariant
            i <= events@.len(),
            r.reflects(events@.subrange(0, i as int)),
        decreases events@.len() - i,
    {
        let e = events[i];
        let ghost prefix = events@.subrange(0, i as int);
        let ghost next = events@.subrange(0, i + 1);
        proof {
            assert(next.drop_last() =~= prefix);
            assert(next.last() == e);
            lemma_total_bound(prefix, |e| thrust_delta(e), 500);
            lemma_total_bound(prefix, |e| steer_delta(e), 20);
            lemma_total_bound(prefix, |e| look_delta(e), 20);
            assert(500 * prefix.len() <= ACC_LIMIT);
        }
        add3(&mut r.thrust, thrust_step(e));
        add3(&mut r.steer, steer_step(e));
        add3(&mut r.look, look_step(e));
        if let InputEvent::CameraMode(m) = e {
            r.camera_mode = Some(m);
        }
        match command_step(e) {
            Some(c) => r.commands.push(c),
            None => {},
        }
        proof {
            assert(r.commands@ =~= commands_of(next));
        }
        i = i + 1;
    }
    proof {
        assert(events@.subrange(0, events@.len() as int) =~= events@);
    }
    r
}

} // verus!
