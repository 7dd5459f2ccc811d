use std::collections::{BTreeMap, VecDeque};

use crewai_rs::blueprint::default_iterations;
use crewai_rs::{
    AgentBlueprint, CrewBlueprint, CrewError, CrewExecution, FnTool, KickoffAction, KickoffInput,
    OutputFormat, Process, ProcessKind, RuntimeRegistry, TaskBlueprint, ToolOutput,
};
use serde_yaml::Value;

fn field(v: &Value, key: &str) -> Option<String> {
    v.get(key).and_then(|x| x.as_str()).map(|s| s.to_string())
}

fn list(v: &Value, key: &str) -> Vec<String> {
    v.get(key)
        .and_then(|x| x.as_sequence())
        .map(|items| items.iter().map(|i| i.as_str().unwrap().to_string()).collect())
        .unwrap_or_default()
}

fn agent_blueprint(v: &Value) -> AgentBlueprint {
    AgentBlueprint {
        id: field(v, "id").unwrap(),
        role: field(v, "role").unwrap(),
        goal: field(v, "goal").unwrap(),
        backstory: field(v, "backstory"),
        model: field(v, "model").unwrap(),
        tools: list(v, "tools"),
        max_iterations: v
            .get("max_iterations")
            .and_then(|x| x.as_u64())
            .map(|n| n as usize)
            .unwrap_or_else(default_iterations),
        allow_delegation: v.get("allow_delegation").and_then(|x| x.as_bool()).unwrap_or(false),
    }
}

fn task_blueprint(v: &Value) -> TaskBlueprint {
    TaskBlueprint {
        id: field(v, "id").unwrap(),
        description: field(v, "description").unwrap(),
        expected_output: field(v, "expected_output"),
        agent: field(v, "agent").unwrap(),
        depends_on: list(v, "depends_on"),
        context: field(v, "context"),
        output_format: match field(v, "output_format").as_deref() {
            Some("text") => OutputFormat::Text,
            Some("json") => OutputFormat::Json,
            _ => OutputFormat::Markdown,
        },
    }
}

/// Reads a crew blueprint from YAML text.
fn from_yaml_str(text: &str) -> CrewBlueprint {
    let v: Value = serde_yaml::from_str(text).unwrap();
    CrewBlueprint {
        name: field(&v, "name").unwrap(),
        process: match field(&v, "process").as_deref() {
            Some("hierarchical") => ProcessKind::Hierarchical,
            _ => ProcessKind::Sequential,
        },
        agents: v
            .get("agents")
            .and_then(|x| x.as_sequence())
            .unwrap()
            .iter()
            .map(agent_blueprint)
            .collect(),
        tasks: v.get("tasks").and_then(|x| x.as_sequence()).unwrap().iter().map(task_blueprint).collect(),
        manager: v.get("manager").map(agent_blueprint),
    }
}

/// Runs a crew with models that answer from queues keyed as the agents name
/// their models, and a tool that answers `found <input>`.
fn drive(crew: &crewai_rs::Crew, goal: &str, scripts: &[(&str, &[&str])]) -> Result<CrewExecution, CrewError> {
    let mut queues: BTreeMap<String, VecDeque<String>> = BTreeMap::new();
    for (key, texts) in scripts {
        queues.insert(key.to_string(), texts.iter().map(|t| t.to_string()).collect());
    }
    let mut next_reply = |key: &str| -> String { queues.get_mut(key).unwrap().pop_front().unwrap() };
    let (mut run, mut action) = crew.start_kickoff(KickoffInput::new(goal));
    loop {
        let (next, next_action) = match action {
            KickoffAction::AskManager { .. } => {
                let key = match crew.process() {
                    Process::Hierarchical { manager } => manager.model().to_string(),
                    Process::Sequential => panic!("no manager"),
                };
                let reply = next_reply(&key);
                run.on_manager_reply(&reply, None)
            }
            KickoffAction::AskAgent { agent_id, .. } => {
                let i = crew.agent_index(&agent_id).unwrap();
                let reply = next_reply(crew.agents()[i].model());
                run.on_agent_reply(&reply, None)
            }
            KickoffAction::ParseDirective { raw } => {
                let v: serde_json::Value = serde_json::from_str(&raw).unwrap();
                run.on_directive(v["tool"].as_str().unwrap(), v["input"].as_str().unwrap())
            }
            KickoffAction::CallTool { input, .. } => {
                let output = ToolOutput::text(&format!("found {}", input.value));
                run.on_tool_output(&output.content)
            }
            KickoffAction::Finished(execution) => return Ok(execution),
            KickoffAction::Failed(error) => return Err(error),
        };
        run = next;
        action = next_action;
    }
}

#[test]
fn yaml_blueprints_build_crews_from_runtime_registries() {
    let blueprint = from_yaml_str(
        r#"
name: launch-crew
process: hierarchical
manager:
  id: manager
  role: Product Strategist
  goal: Keep the crew focused.
  model: planner
agents:
  - id: researcher
    role: Rust OSS Researcher
    goal: Find launch hooks.
    model: planner
    tools: [search]
  - id: writer
    role: Launch Writer
    goal: Write the final brief.
    model: writer
tasks:
  - id: research
    description: Research the launch angle.
    agent: researcher
  - id: brief
    description: Write the final brief.
    agent: writer
    depends_on: [research]
"#,
    );

    let registry = RuntimeRegistry::new()
        .with_model("planner")
        .with_model("writer")
        .with_tool("search", FnTool::new("search", "Looks up demand."));

    let crew = blueprint.build(&registry).unwrap();
    let result = drive(
        &crew,
        "Launch crewai-rs.",
        &[
            (
                "planner",
                &[
                    "<final_answer>Push the crew toward a strong commercial message.</final_answer>",
                    r#"<tool_call>{"tool":"search","input":"CrewAI-rs launch hooks"}</tool_call>"#,
                    "<final_answer>- Rust is underserved\n- Typed flows matter</final_answer>",
                    "<final_answer>Keep the final brief commercially sharp and concise.</final_answer>",
                ],
            ),
            (
                "writer",
                &["<final_answer>Ship crewai-rs as the typed crew runtime for Rust AI products.</final_answer>"],
            ),
        ],
    )
    .unwrap();

    assert!(result.final_output.contains("typed crew runtime"));
    assert_eq!(result.tasks[0].tool_calls.len(), 1);
    assert_eq!(result.tasks[0].tool_calls[0].output, "found CrewAI-rs launch hooks");
}

fn simple_agent(id: &str, model: &str, tools: &[&str]) -> AgentBlueprint {
    AgentBlueprint {
        id: id.to_string(),
        role: "Role".to_string(),
        goal: "Goal".to_string(),
        backstory: None,
        model: model.to_string(),
        tools: tools.iter().map(|t| t.to_string()).collect(),
        max_iterations: default_iterations(),
        allow_delegation: false,
    }
}

fn simple_task(id: &str, agent: &str) -> TaskBlueprint {
    TaskBlueprint {
        id: id.to_string(),
        description: "Do it.".to_string(),
        expected_output: None,
        agent: agent.to_string(),
        depends_on: Vec::new(),
        context: None,
        output_format: OutputFormat::default(),
    }
}

#[test]
fn blueprint_errors_name_what_is_missing() {
    let registry = RuntimeRegistry::new().with_model("m").with_tool("t", FnTool::new("t", "d"));

    let missing_model = simple_agent("a", "nope", &[]).build(&registry).unwrap_err();
    assert!(matches!(missing_model, CrewError::MissingModel(m) if m == "nope"));

    let missing_tool = simple_agent("a", "m", &["t", "u"]).build(&registry).unwrap_err();
    assert!(matches!(missing_tool, CrewError::MissingTool(t) if t == "u"));

    let agent = simple_agent("a", "m", &["t"]).build(&registry).unwrap();
    assert_eq!(agent.model(), "m");
    assert_eq!(agent.tools().len(), 1);
    assert_eq!(agent.tools()[0].description(), "d");
    assert_eq!(agent.max_iterations(), 4);

    let no_manager = CrewBlueprint {
        name: "c".to_string(),
        process: ProcessKind::Hierarchical,
        agents: vec![simple_agent("a", "m", &[])],
        tasks: vec![simple_task("x", "a")],
        manager: None,
    };
    assert!(matches!(
        no_manager.build(&registry).unwrap_err(),
        CrewError::InvalidConfig(m) if m == "hierarchical blueprints require a manager agent"
    ));

    let unknown_agent = CrewBlueprint {
        name: "c".to_string(),
        process: ProcessKind::default(),
        agents: vec![simple_agent("a", "m", &[])],
        tasks: vec![simple_task("x", "b")],
        manager: None,
    };
    assert!(matches!(unknown_agent.build(&registry).unwrap_err(), CrewError::MissingAgent(a) if a == "b"));

    let blank_task = CrewBlueprint {
        name: "c".to_string(),
        process: ProcessKind::Sequential,
        agents: vec![simple_agent("a", "m", &[])],
        tasks: vec![simple_task(" ", "a")],
        manager: None,
    };
    assert!(matches!(
        blank_task.build(&registry).unwrap_err(),
        CrewError::InvalidConfig(m) if m == "task id cannot be empty"
    ));
}

#[test]
fn task_blueprints_fill_in_every_field() {
    let blueprint = TaskBlueprint {
        id: "t".to_string(),
        description: "Describe.".to_string(),
        expected_output: Some("A list.".to_string()),
        agent: "a".to_string(),
        depends_on: vec!["u".to_string()],
        context: Some("Background.".to_string()),
        output_format: OutputFormat::Json,
    };
    let task = blueprint.build().unwrap();
    assert_eq!(task.id(), "t");
    assert_eq!(task.description(), "Describe.");
    assert_eq!(task.expected_output(), Some("A list."));
    assert_eq!(task.agent(), "a");
    assert_eq!(task.depends_on(), &["u".to_string()]);
    assert_eq!(task.context(), Some("Background."));
    assert_eq!(task.output_format(), OutputFormat::Json);
}

#[test]
fn registries_resolve_what_was_registered() {
    let mut registry = RuntimeRegistry::new();
    registry.register_model("planner");
    registry.register_tool("search", FnTool::new("search", "old"));
    registry.register_tool("search", FnTool::new("search", "new"));
    assert_eq!(registry.resolve_model("planner").unwrap(), "planner");
    assert!(matches!(registry.resolve_model("writer"), Err(CrewError::MissingModel(m)) if m == "writer"));
    assert_eq!(registry.resolve_tool("search").unwrap().description(), "new");
    assert!(matches!(registry.resolve_tool("fetch"), Err(CrewError::MissingTool(t)) if t == "fetch"));
}
