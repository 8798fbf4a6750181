use vstd::prelude::*;

verus! {

/// Where a navigation attempt stands.
#[derive(Copy, Clone, Debug, PartialEq, Eq, Structural)]
pub enum NavigationState {
    /// Nothing read yet.
    Init,
    /// Start and goal are known; the global planner is running.
    PlanningGlobal,
    /// Ticking: plan locally and send a command each tick.
    Executing,
    /// The goal pose was reached within the thresholds.
    Arrived,
    /// The planner or a capability failed, or the tick budget ran out.
    Failed,
    /// Cancelled cooperatively through the is-running flag.
    Aborted,
}

/// What one tick observed, each condition already digested to a plain truth
/// value by the caller.
#[derive(Copy, Clone, Debug, PartialEq, Eq, Structural)]
pub struct TickEvent {
    /// The is-running flag was cleared before this tick.
    pub cancel_requested: bool,
    /// Localization produced a pose.
    pub pose_available: bool,
    /// The pose stands at the goal within both thresholds.
    pub arrived: bool,
    /// The local planner rejected every candidate trajectory.
    pub plan_rejected: bool,
    /// This tick would exceed the attempt's tick budget.
    pub tick_limit_reached: bool,
}

/// What the executor must do with the base this tick.
#[derive(Copy, Clone, Debug, PartialEq, Eq, Structural)]
pub enum TickCommand {
    /// Keep going: send the velocity the local planner chose.
    SendPlannedVelocity,
    /// The attempt is over: send one zero-velocity stop command.
    SendStop,
}

/// The executing-state transition of one tick: cancellation is observed
/// first, then a missing pose, then arrival, then a rejected plan, then the
/// tick budget; only an uneventful tick keeps executing.
pub open spec fn tick_transition_spec(event: TickEvent) -> (NavigationState, TickCommand) {
    if event.cancel_requested {
        (NavigationState::Aborted, TickCommand::SendStop)
    } else if !event.pose_available {
        (NavigationState::Failed, TickCommand::SendStop)
    } else if event.arrived {
        (NavigationState::Arrived, TickCommand::SendStop)
    } else if event.plan_rejected {
        (NavigationState::Failed, TickCommand::SendStop)
    } else if event.tick_limit_reached {
        (NavigationState::Failed, TickCommand::SendStop)
    } else {
        (NavigationState::Executing, TickCommand::SendPlannedVelocity)
    }
}

/// Decide one tick while `Executing`.
pub fn tick_transition(event: TickEvent) -> (r: (NavigationState, TickCommand))
    ensures
        r == tick_transition_spec(event),
{
    if event.cancel_requested {
        (NavigationState::Aborted, TickCommand::SendStop)
    } else if !event.pose_available {
        (NavigationState::Failed, TickCommand::SendStop)
    } else if event.arrived {
        (NavigationState::Arrived, TickCommand::SendStop)
    } else if event.plan_rejected {
        (NavigationState::Failed, TickCommand::SendStop)
    } else if event.tick_limit_reached {
        (NavigationState::Failed, TickCommand::SendStop)
    } else {
        (NavigationState::Executing, TickCommand::SendPlannedVelocity)
    }
}

/// Reading the start and goal poses moves a fresh attempt to global planning.
pub fn start_navigation() -> (r: NavigationState)
    ensures
        r == NavigationState::PlanningGlobal,
{
    NavigationState::PlanningGlobal
}

/// The global planner's outcome decides whether ticking starts: success moves
/// to `Executing`, failure is fatal for the attempt.
pub fn global_plan_finished(success: bool) -> (r: NavigationState)
    ensures
        success ==> r == NavigationState::Executing,
        !success ==> r == NavigationState::Failed,
{
    if success {
        NavigationState::Executing
    } else {
        NavigationState::Failed
    }
}

/// Every tick that ends the attempt — arrival, failure, or abort — commands a
/// stop, and a tick that keeps executing commands the planned velocity: no
/// partial motion silently continues.
pub proof fn lemma_terminal_states_stop(event: TickEvent)
    ensures
        ({
            let (state, command) = tick_transition_spec(event);
            &&& ((state == NavigationState::Arrived || state == NavigationState::Failed || state
                == NavigationState::Aborted) <==> command == TickCommand::SendStop)
            &&& (state == NavigationState::Executing <==> command
                == TickCommand::SendPlannedVelocity)
        }),
{
}

} // verus!
