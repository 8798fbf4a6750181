use grid_map::{
    global_plan_finished, start_navigation, tick_transition, NavigationState, TickCommand,
    TickEvent,
};

fn quiet_tick() -> TickEvent {
    TickEvent {
        cancel_requested: false,
        pose_available: true,
        arrived: false,
        plan_rejected: false,
        tick_limit_reached: false,
    }
}

#[test]
fn uneventful_tick_keeps_executing() {
    let (state, command) = tick_transition(quiet_tick());
    assert_eq!(state, NavigationState::Executing);
    assert_eq!(command, TickCommand::SendPlannedVelocity);
}

#[test]
fn arrival_stops_the_base() {
    let (state, command) = tick_transition(TickEvent { arrived: true, ..quiet_tick() });
    assert_eq!(state, NavigationState::Arrived);
    assert_eq!(command, TickCommand::SendStop);
}

#[test]
fn cancellation_wins_over_everything() {
    let (state, command) = tick_transition(TickEvent {
        cancel_requested: true,
        arrived: true,
        plan_rejected: true,
        ..quiet_tick()
    });
    assert_eq!(state, NavigationState::Aborted);
    assert_eq!(command, TickCommand::SendStop);
}

#[test]
fn missing_pose_fails_before_arrival() {
    let (state, command) =
        tick_transition(TickEvent { pose_available: false, arrived: true, ..quiet_tick() });
    assert_eq!(state, NavigationState::Failed);
    assert_eq!(command, TickCommand::SendStop);
}

#[test]
fn rejected_plan_fails_the_attempt() {
    let (state, command) = tick_transition(TickEvent { plan_rejected: true, ..quiet_tick() });
    assert_eq!(state, NavigationState::Failed);
    assert_eq!(command, TickCommand::SendStop);
}

#[test]
fn tick_budget_exhaustion_fails_the_attempt() {
    let (state, command) = tick_transition(TickEvent { tick_limit_reached: true, ..quiet_tick() });
    assert_eq!(state, NavigationState::Failed);
    assert_eq!(command, TickCommand::SendStop);
}

#[test]
fn global_planning_gates_execution() {
    assert_eq!(start_navigation(), NavigationState::PlanningGlobal);
    assert_eq!(global_plan_finished(true), NavigationState::Executing);
    assert_eq!(global_plan_finished(false), NavigationState::Failed);
}
