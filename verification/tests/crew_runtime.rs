use std::collections::{BTreeMap, VecDeque};

use crewai_rs::{
    Agent, Crew, CrewError, CrewExecution, FnTool, KickoffAction, KickoffInput, KickoffRun,
    MessageRole, ModelMessage, Process, RunPhase, Task, ToolInput, ToolOutput, TranscriptEventKind,
};

/// Scripted models, keyed as the agents name them, and the requests they saw.
struct Models {
    replies: BTreeMap<String, VecDeque<String>>,
    requests: BTreeMap<String, Vec<Vec<ModelMessage>>>,
}

impl Models {
    fn new(scripts: &[(&str, &[&str])]) -> Models {
        let mut replies = BTreeMap::new();
        for (key, texts) in scripts {
            replies.insert(
                key.to_string(),
                texts.iter().map(|t| t.to_string()).collect::<VecDeque<_>>(),
            );
        }
        Models { replies, requests: BTreeMap::new() }
    }

    fn complete(&mut self, key: &str, messages: Vec<ModelMessage>) -> Result<String, String> {
        self.requests.entry(key.to_string()).or_default().push(messages);
        self.replies
            .get_mut(key)
            .and_then(|queue| queue.pop_front())
            .ok_or_else(|| format!("mock model `{}` ran out of responses", key))
    }
}

fn parse_directive(raw: &str) -> (String, String) {
    let value: serde_json::Value = serde_json::from_str(raw).unwrap();
    (
        value.get("tool").and_then(|v| v.as_str()).unwrap().to_string(),
        value.get("input").and_then(|v| v.as_str()).unwrap().to_string(),
    )
}

/// Runs a crew to the end with scripted models and tools.
fn drive(
    crew: &Crew,
    input: KickoffInput,
    models: &mut Models,
    tool: &dyn Fn(&str, &ToolInput) -> ToolOutput,
) -> Result<CrewExecution, CrewError> {
    let (mut run, mut action): (KickoffRun, KickoffAction) = crew.start_kickoff(input);
    loop {
        let (next, next_action) = match action {
            KickoffAction::AskManager { messages, max_tokens } => {
                assert_eq!(max_tokens, 300);
                let key = match crew.process() {
                    Process::Hierarchical { manager } => manager.model().to_string(),
                    Process::Sequential => panic!("no manager"),
                };
                let reply = models.complete(&key, messages).map_err(CrewError::Model)?;
                assert!(matches!(run.phase(), RunPhase::Briefing));
                run.on_manager_reply(&reply, None)
            }
            KickoffAction::AskAgent { agent_id, messages } => {
                let index = crew.agent_index(&agent_id).unwrap();
                let key = crew.agents()[index].model().to_string();
                let reply = models.complete(&key, messages).map_err(CrewError::Model)?;
                assert!(!run.agent_reply_overflows(&reply, None));
                run.on_agent_reply(&reply, None)
            }
            KickoffAction::ParseDirective { raw } => {
                let (name, value) = parse_directive(&raw);
                run.on_directive(&name, &value)
            }
            KickoffAction::CallTool { agent_id, tool_index, input } => {
                let index = crew.agent_index(&agent_id).unwrap();
                let name = crew.agents()[index].tools()[tool_index].name().to_string();
                let output = tool(&name, &input);
                run.on_tool_output(&output.content)
            }
            KickoffAction::Finished(execution) => return Ok(execution),
            KickoffAction::Failed(error) => return Err(error),
        };
        run = next;
        action = next_action;
    }
}

fn search(name: &str, input: &ToolInput) -> ToolOutput {
    assert_eq!(name, "search");
    ToolOutput::text(&format!("launch insight for `{}`", input.value))
}

#[test]
fn sequential_crews_execute_tools_and_dependency_context() {
    let search_tool = FnTool::new("search", "Searches launch data.");
    let mut models = Models::new(&[
        (
            "researcher-model",
            &[
                r#"<tool_call>{"tool":"search","input":"Rust crew launch"}</tool_call>"#,
                r#"<final_answer>- Rust demand exists
- People want typed orchestration</final_answer>"#,
            ],
        ),
        (
            "writer-model",
            &[r#"<final_answer>Launch crewai-rs as the typed orchestration layer for Rust AI teams.</final_answer>"#],
        ),
    ]);

    let crew = Crew::builder("launch")
        .agent(
            Agent::builder("researcher")
                .role("Researcher")
                .goal("Find demand signals.")
                .model("researcher-model")
                .tool(search_tool)
                .build()
                .unwrap(),
        )
        .agent(
            Agent::builder("writer")
                .role("Writer")
                .goal("Turn research into messaging.")
                .model("writer-model")
                .build()
                .unwrap(),
        )
        .task(
            Task::builder("research")
                .description("Research demand.")
                .expected_output("Bullet list.")
                .agent("researcher")
                .build()
                .unwrap(),
        )
        .task(
            Task::builder("brief")
                .description("Write the launch brief.")
                .agent("writer")
                .depends_on(vec!["research".to_string()])
                .build()
                .unwrap(),
        )
        .build()
        .unwrap();

    let execution = drive(
        &crew,
        KickoffInput::new("Launch crewai-rs.").with_context("channel", "GitHub"),
        &mut models,
        &search,
    )
    .unwrap();

    assert!(execution.final_output.contains("typed orchestration"));
    assert_eq!(execution.tasks[0].tool_calls.len(), 1);
    assert!(execution.tasks[0].tool_calls[0].output.contains("launch insight"));

    let writer_requests = &models.requests["writer-model"];
    let last_user_message = writer_requests[0]
        .iter()
        .find(|message| matches!(message.role, MessageRole::User))
        .unwrap()
        .content
        .clone();
    assert!(last_user_message.contains("Rust demand exists"));
}

#[test]
fn hierarchical_crews_request_manager_briefs() {
    let mut models = Models::new(&[
        (
            "manager-model",
            &[r#"<final_answer>Stay sharp: focus on the commercial angle and avoid generic AI claims.</final_answer>"#],
        ),
        (
            "worker-model",
            &[r#"<final_answer>Rust-native crews can be deployed as a single binary.</final_answer>"#],
        ),
    ]);

    let crew = Crew::builder("hierarchical")
        .agent(
            Agent::builder("operator")
                .role("Operator")
                .goal("Execute the assigned task.")
                .model("worker-model")
                .build()
                .unwrap(),
        )
        .task(
            Task::builder("summarize")
                .description("Summarize the launch angle.")
                .agent("operator")
                .build()
                .unwrap(),
        )
        .process(Process::Hierarchical {
            manager: Agent::builder("manager")
                .role("Manager")
                .goal("Keep the team commercially focused.")
                .model("manager-model")
                .build()
                .unwrap(),
        })
        .build()
        .unwrap();

    let execution = drive(&crew, KickoffInput::new("Prepare launch copy."), &mut models, &search).unwrap();

    assert_eq!(
        execution.tasks[0].manager_brief.as_deref(),
        Some("Stay sharp: focus on the commercial angle and avoid generic AI claims.")
    );
    assert!(execution
        .transcript
        .iter()
        .any(|event| event.kind == TranscriptEventKind::ManagerBriefed));
}
