use crewai_rs::{CrewError, Flow, FlowAction, FlowContext, FlowRun, FlowTransition};

#[derive(Debug, Default)]
struct State {
    validated: bool,
    published: bool,
}

fn validate(state: &mut State, _context: &FlowContext) -> FlowTransition {
    state.validated = true;
    FlowTransition::Next("publish".to_string())
}

fn publish(state: &mut State, _context: &FlowContext) -> FlowTransition {
    state.published = true;
    FlowTransition::Finish
}

/// Runs a flow to the end, calling the step of each name on the state.
fn run_flow(
    flow: &Flow,
    mut state: State,
    step: &dyn Fn(&str, &mut State, &FlowContext) -> FlowTransition,
) -> Result<FlowRun<State>, CrewError> {
    let (mut runner, mut action) = flow.start_run();
    loop {
        match action {
            FlowAction::RunStep { step: name, context } => {
                let transition = step(&name, &mut state, &context);
                action = runner.resume(flow, transition);
            }
            FlowAction::Finished { execution_id, history } => {
                return Ok(FlowRun { execution_id, history, state });
            }
            FlowAction::Failed(error) => return Err(error),
        }
    }
}

fn launch_steps(name: &str, state: &mut State, context: &FlowContext) -> FlowTransition {
    match name {
        "validate" => validate(state, context),
        "publish" => publish(state, context),
        other => panic!("unknown step {}", other),
    }
}

#[test]
fn typed_flows_can_drive_stateful_work() {
    let flow = Flow::builder("launch-flow")
        .step("validate")
        .step("publish")
        .edge("validate", "publish")
        .start("validate")
        .build()
        .unwrap();

    let result = run_flow(&flow, State::default(), &launch_steps).unwrap();

    assert_eq!(result.history, vec!["validate", "publish"]);
    assert!(result.state.validated);
    assert!(result.state.published);
}

#[test]
fn flow_runs_carry_a_version_four_uuid_and_step_indices() {
    let flow = Flow::builder("launch-flow")
        .step("validate")
        .step("publish")
        .start("validate")
        .build()
        .unwrap();
    let (mut runner, action) = flow.start_run();
    let id = runner.execution_id().to_string();
    assert_eq!(id.len(), 36);
    assert_eq!(id.chars().nth(14), Some('4'));
    assert!("89ab".contains(id.chars().nth(19).unwrap()));
    assert!(id.chars().all(|c| c == '-' || c.is_ascii_digit() || ('a'..='f').contains(&c)));
    assert_eq!(id.chars().filter(|c| *c == '-').count(), 4);
    match action {
        FlowAction::RunStep { step, context } => {
            assert_eq!(step, "validate");
            assert_eq!(context.step_index, 0);
            assert_eq!(context.execution_id, id);
        }
        other => panic!("unexpected {:?}", other),
    }
    match runner.resume(&flow, FlowTransition::Next("publish".to_string())) {
        FlowAction::RunStep { step, context } => {
            assert_eq!(step, "publish");
            assert_eq!(context.step_index, 1);
        }
        other => panic!("unexpected {:?}", other),
    }
    let (other_runner, _) = flow.start_run();
    assert_ne!(other_runner.execution_id(), id);
}

#[test]
fn flow_runs_stop_at_the_step_limit() {
    let flow = Flow::builder("loop")
        .step("again")
        .start("again")
        .max_steps(3)
        .build()
        .unwrap();
    let error = run_flow(&flow, State::default(), &|_, _, _| FlowTransition::Next("again".to_string()))
        .unwrap_err();
    match error {
        CrewError::InvalidConfig(message) => {
            assert_eq!(message, "flow `loop` exceeded max step count of 3")
        }
        other => panic!("unexpected {:?}", other),
    }
}

#[test]
fn flow_runs_fail_on_an_unregistered_step() {
    let flow = Flow::builder("f").step("a").start("a").build().unwrap();
    let error = run_flow(&flow, State::default(), &|_, _, _| FlowTransition::Next("b".to_string()))
        .unwrap_err();
    match error {
        CrewError::InvalidConfig(message) => assert_eq!(message, "flow step `b` was not registered"),
        other => panic!("unexpected {:?}", other),
    }
}

#[test]
fn flow_with_no_steps_allowed_fails_at_once() {
    let flow = Flow::builder("f").step("a").start("a").max_steps(0).build().unwrap();
    let (runner, action) = flow.start_run_with_id("run-1".to_string());
    assert_eq!(runner.execution_id(), "run-1");
    assert!(runner.history().is_empty());
    match action {
        FlowAction::Failed(CrewError::InvalidConfig(message)) => {
            assert_eq!(message, "flow `f` exceeded max step count of 0")
        }
        other => panic!("unexpected {:?}", other),
    }
}

#[test]
fn flow_builder_errors() {
    let missing_start = Flow::builder("f").step("a").build().unwrap_err();
    assert!(matches!(missing_start, CrewError::InvalidConfig(m) if m == "flow start step is required"));
    let unknown_start = Flow::builder("f").step("a").start("b").build().unwrap_err();
    assert!(
        matches!(unknown_start, CrewError::InvalidConfig(m) if m == "flow start step `b` is not registered")
    );
    let bad_source = Flow::builder("f").step("a").start("a").edge("x", "a").build().unwrap_err();
    assert!(
        matches!(bad_source, CrewError::InvalidConfig(m) if m == "flow edge source `x` is not registered")
    );
    let bad_target = Flow::builder("f").step("a").start("a").edge("a", "y").build().unwrap_err();
    assert!(
        matches!(bad_target, CrewError::InvalidConfig(m) if m == "flow edge target `y` is not registered")
    );
}

#[test]
fn flow_builder_defaults_and_duplicate_steps() {
    let flow = Flow::builder("launch").step("b").step("a").step("b").start("a").build().unwrap();
    assert_eq!(flow.name(), "launch");
    assert_eq!(flow.max_steps(), 32);
    assert!(flow.has_step("a"));
    assert!(flow.has_step("b"));
    assert!(!flow.has_step("c"));
}

#[test]
fn flow_mermaid_lists_steps_in_order_and_edges() {
    let flow = Flow::builder("launch-flow")
        .step("validate")
        .step("publish-now")
        .edge("validate", "publish-now")
        .start("validate")
        .build()
        .unwrap();
    assert_eq!(
        flow.mermaid(),
        "flowchart LR\n  publish_now([publish-now])\n  validate([validate])\n  validate --> publish_now"
    );
}
