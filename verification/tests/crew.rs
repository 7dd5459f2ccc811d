use crewai_rs::prompts::{
    render_agent_system_prompt, render_manager_prompt, render_manager_system_prompt, render_task_prompt,
};
use crewai_rs::schedule::topological_tasks;
use crewai_rs::text::{extract_tag, sanitize_node_id, unwrap_final_answer};
use crewai_rs::{
    Agent, Crew, CrewError, CrewExecution, FnTool, KickoffAction, KickoffInput, MessageRole,
    OutputFormat, Process, RunPhase, Task, TaskOutcome, TokenUsage, ToolCallRecord,
    TranscriptEventKind,
};

fn agent(id: &str) -> Agent {
    Agent::builder(id).role("Role").goal("Goal").model("m").build().unwrap()
}

fn task(id: &str, agent: &str, deps: &[&str]) -> Task {
    Task::builder(id)
        .description("Describe.")
        .agent(agent)
        .depends_on(deps.iter().map(|d| d.to_string()).collect())
        .build()
        .unwrap()
}

fn outcome(task_id: &str, agent_id: &str, output: &str) -> TaskOutcome {
    TaskOutcome {
        task_id: task_id.to_string(),
        agent_id: agent_id.to_string(),
        output: output.to_string(),
        tool_calls: Vec::new(),
        manager_brief: None,
        usage: TokenUsage::default(),
    }
}

#[test]
fn tasks_are_ordered_after_their_dependencies() {
    let tasks = vec![task("c", "a", &["b"]), task("b", "a", &["a"]), task("a", "a", &[])];
    assert_eq!(topological_tasks(&tasks).unwrap(), vec![2, 1, 0]);
    let independent = vec![task("x", "a", &[]), task("y", "a", &[]), task("z", "a", &["x", "y"])];
    assert_eq!(topological_tasks(&independent).unwrap(), vec![0, 1, 2]);
}

#[test]
fn ordering_reports_missing_dependencies_and_cycles() {
    let missing = vec![task("a", "a", &[]), task("b", "a", &["a", "zzz"])];
    match topological_tasks(&missing).unwrap_err() {
        CrewError::MissingDependency { task, dependency } => {
            assert_eq!(task, "b");
            assert_eq!(dependency, "zzz");
        }
        other => panic!("unexpected {:?}", other),
    }
    let cycle = vec![task("a", "a", &["b"]), task("b", "a", &["a"]), task("c", "a", &[])];
    assert!(matches!(topological_tasks(&cycle).unwrap_err(), CrewError::CyclicTaskGraph));
}

#[test]
fn crew_builder_errors() {
    let blank = Crew::builder("  ").agent(agent("a")).task(task("t", "a", &[])).build().unwrap_err();
    assert!(matches!(blank, CrewError::InvalidConfig(m) if m == "crew name cannot be empty"));
    let empty = Crew::builder("c").agent(agent("a")).build().unwrap_err();
    assert!(matches!(empty, CrewError::InvalidConfig(m) if m == "a crew must contain at least one task"));
    let missing = Crew::builder("c").agent(agent("a")).task(task("t", "b", &[])).build().unwrap_err();
    assert!(matches!(missing, CrewError::MissingAgent(a) if a == "b"));
    let cyclic = Crew::builder("c")
        .agent(agent("a"))
        .task(task("t", "a", &["u"]))
        .task(task("u", "a", &["t"]))
        .build()
        .unwrap_err();
    assert!(matches!(cyclic, CrewError::CyclicTaskGraph));
}

#[test]
fn crew_builder_replaces_agents_with_the_same_id() {
    let first = Agent::builder("a").role("First").goal("g").model("m").build().unwrap();
    let second = Agent::builder("a").role("Second").goal("g").model("m").build().unwrap();
    let crew = Crew::builder("c")
        .agent(agent("z"))
        .agent(first)
        .agent(second)
        .task(task("t", "a", &[]))
        .build()
        .unwrap();
    assert_eq!(crew.agents().len(), 2);
    assert_eq!(crew.agents()[0].id(), "a");
    assert_eq!(crew.agents()[0].role(), "Second");
    assert_eq!(crew.agents()[1].id(), "z");
    assert_eq!(crew.agent_index("z"), Some(1));
    assert_eq!(crew.agent_index("q"), None);
    assert_eq!(crew.name(), "c");
    assert_eq!(crew.tasks().len(), 1);
    assert!(matches!(crew.process(), Process::Sequential));
}

#[test]
fn crew_mermaid_shows_nodes_and_dependency_edges() {
    let crew = Crew::builder("c")
        .agent(agent("a"))
        .task(task("re-search", "a", &[]))
        .task(task("brief", "a", &["re-search"]))
        .build()
        .unwrap();
    assert_eq!(
        crew.mermaid(),
        "flowchart TD\n  kickoff([Kickoff])\n  re_search[\"re-search\\na\"]\n  brief[\"brief\\na\"]\n  kickoff --> re_search\n  re_search --> brief"
    );
}

#[test]
fn executions_render_as_markdown() {
    let mut first = outcome("research", "researcher", "Findings.");
    first.tool_calls.push(ToolCallRecord {
        tool: "search".to_string(),
        input: "q".to_string(),
        output: "hits".to_string(),
    });
    let execution = CrewExecution {
        crew_name: "launch".to_string(),
        kickoff: KickoffInput::new("Ship it."),
        final_output: "Done.".to_string(),
        tasks: vec![first, outcome("brief", "writer", "Brief.")],
        transcript: Vec::new(),
        usage: TokenUsage::default(),
    };
    assert_eq!(
        execution.to_markdown(),
        "# launch\n\n## Goal\n\nShip it.\n\n## Final Output\n\nDone.\n\n## Tasks\n\n\
### research (researcher)\n\nFindings.\n\nTool calls:\n- `search` input: `q`\n- output: hits\n\n\
### brief (writer)\n\nBrief.\n\n"
    );
}

#[test]
fn kickoff_context_is_kept_in_key_order_and_replaced_by_key() {
    let input = KickoffInput::new("goal")
        .with_context("zeta", "1")
        .with_context("alpha", "2")
        .with_context("zeta", "3");
    assert_eq!(input.goal(), "goal");
    let context: Vec<(String, String)> = input.context().clone();
    assert_eq!(
        context,
        vec![("alpha".to_string(), "2".to_string()), ("zeta".to_string(), "3".to_string())]
    );
}

#[test]
fn prompts_follow_their_templates() {
    let agent = Agent::builder("researcher")
        .role("Researcher")
        .goal("Find signals.")
        .backstory("Veteran.")
        .model("m")
        .tool(FnTool::new("search", "Searches."))
        .allow_delegation(true)
        .build()
        .unwrap();
    assert_eq!(
        render_agent_system_prompt(&agent),
        "You are a crew member inside a Rust-native CrewAI-style runtime.\nRole: Researcher\nGoal: Find signals.\nBackstory: Veteran.\nDelegation allowed: true\n\nAvailable tools:\n- search: Searches.\n\nWhen you need a tool, respond with exactly one XML tag:\n<tool_call>{\"tool\":\"tool_name\",\"input\":\"what to pass to the tool\"}</tool_call>\nWhen you are done, either reply normally or wrap the final answer with:\n<final_answer>your final answer</final_answer>\nBe concrete, structured, and concise."
    );
    let plain = Agent::builder("w").role("Writer").goal("Write.").model("m").build().unwrap();
    assert!(render_agent_system_prompt(&plain)
        .contains("Backstory: n/a\nDelegation allowed: false\n\nAvailable tools:\nNo tools are registered.\n\n"));

    let t = Task::builder("brief")
        .description("Write it.")
        .expected_output("One page.")
        .agent("w")
        .context("For launch.")
        .output_format(OutputFormat::Json)
        .build()
        .unwrap();
    let kickoff = KickoffInput::new("Launch.").with_context("b", "2").with_context("a", "1");
    let deps = vec![outcome("r1", "x", "One."), outcome("r2", "y", "Two.")];
    assert_eq!(
        render_task_prompt(&t, &kickoff, &deps, Some("Be brief.")),
        "Crew goal:\nLaunch.\n\nTask id: brief\nTask description:\nWrite it.\n\nExpected output:\nOne page.\n\nPreferred output format: Json\n\nTask context:\nFor launch.\n\nManager brief:\nBe brief.\n\nKickoff context:\n- a: 1\n- b: 2\n\nCompleted dependency outputs:\n### r1\nOne.\n\n### r2\nTwo."
    );
    let bare = task("t", "w", &[]);
    assert_eq!(
        render_task_prompt(&bare, &KickoffInput::new("G."), &[], None),
        "Crew goal:\nG.\n\nTask id: t\nTask description:\nDescribe.\n\nExpected output:\nnot specified\n\nPreferred output format: Markdown\n\nTask context:\nnone\n\nManager brief:\nnone\n\nKickoff context:\nnone\n\nCompleted dependency outputs:\nnone"
    );
    assert_eq!(
        render_manager_prompt(&t, &deps, &kickoff),
        "Crew goal:\nLaunch.\n\nUpcoming task: brief\nDescription: Write it.\nExpected output: One page.\n\nCompleted work:\n- r1 by x: One.\n- r2 by y: Two.\n\nRespond with a short manager brief that sharpens scope, reduces drift, and mentions any risk to avoid."
    );
    assert_eq!(
        render_manager_system_prompt(&plain),
        "You are the crew manager.\nRole: Writer\nGoal: Write.\nBackstory: n/a\nReturn a concise operating brief for the next task."
    );
}

#[test]
fn tags_and_final_answers_are_extracted() {
    assert_eq!(extract_tag("a <x>  inner </x> b", "x"), Some("inner".to_string()));
    assert_eq!(extract_tag("a <x> open only", "x"), None);
    assert_eq!(extract_tag("</x> before <x>", "x"), None);
    assert_eq!(extract_tag("<x>one</x><x>two</x>", "x"), Some("one".to_string()));
    assert_eq!(unwrap_final_answer("<final_answer> yes </final_answer>"), "yes");
    assert_eq!(unwrap_final_answer("  plain reply \n"), "plain reply");
    assert_eq!(sanitize_node_id("a-b c_1é"), "a_b_c_1_");
}

#[test]
fn agents_that_use_up_their_turns_fail_the_run() {
    let looping = Agent::builder("a")
        .role("Role")
        .goal("Goal")
        .model("m")
        .tool(FnTool::new("search", "Searches."))
        .max_iterations(2)
        .build()
        .unwrap();
    let crew = Crew::builder("c").agent(looping).task(task("t", "a", &[])).build().unwrap();
    let call = r#"<tool_call>{"tool":"search","input":"q"}</tool_call>"#;
    let (run, action) = crew.start_kickoff(KickoffInput::new("g"));
    assert!(matches!(action, KickoffAction::AskAgent { .. }));
    let (run, action) = run.on_agent_reply(call, None);
    assert!(matches!(action, KickoffAction::ParseDirective { ref raw } if raw == r#"{"tool":"search","input":"q"}"#));
    let (run, action) = run.on_directive("search", "q");
    match &action {
        KickoffAction::CallTool { agent_id, tool_index, input } => {
            assert_eq!(agent_id, "a");
            assert_eq!(*tool_index, 0);
            assert_eq!(input.value, "q");
            assert_eq!(input.task_id, "t");
            assert_eq!(input.agent_id, "a");
        }
        other => panic!("unexpected {:?}", other),
    }
    let (run, action) = run.on_tool_output("hits");
    match &action {
        KickoffAction::AskAgent { messages, .. } => {
            assert_eq!(messages.len(), 4);
            assert_eq!(messages[2].role, MessageRole::Assistant);
            assert_eq!(messages[3].role, MessageRole::Tool);
            assert_eq!(messages[3].content, "Tool `search` returned the following result:\nhits");
        }
        other => panic!("unexpected {:?}", other),
    }
    let (run, action) = run.on_agent_reply(call, None);
    let (run, action2) = match action {
        KickoffAction::ParseDirective { .. } => run.on_directive("search", "q"),
        other => panic!("unexpected {:?}", other),
    };
    assert!(matches!(action2, KickoffAction::CallTool { .. }));
    let (run, action) = run.on_tool_output("hits");
    match action {
        KickoffAction::Failed(CrewError::MaxIterationsExceeded { agent, task }) => {
            assert_eq!(agent, "a");
            assert_eq!(task, "t");
        }
        other => panic!("unexpected {:?}", other),
    }
    assert!(matches!(run.phase(), RunPhase::Done));
    let kinds: Vec<TranscriptEventKind> = run.transcript().iter().map(|e| e.kind).collect();
    assert_eq!(
        kinds,
        vec![TranscriptEventKind::TaskStarted, TranscriptEventKind::ToolCalled, TranscriptEventKind::ToolCalled]
    );
    assert_eq!(run.transcript()[0].message, "Role started t");
    assert_eq!(run.transcript()[1].message, "a called search");
}

#[test]
fn unknown_tools_fail_the_run() {
    let crew = Crew::builder("c").agent(agent("a")).task(task("t", "a", &[])).build().unwrap();
    let (run, _) = crew.start_kickoff(KickoffInput::new("g"));
    let (run, _) = run.on_agent_reply(r#"<tool_call>{"tool":"fetch","input":"q"}</tool_call>"#, None);
    let (_, action) = run.on_directive("fetch", "q");
    assert!(matches!(action, KickoffAction::Failed(CrewError::MissingTool(t)) if t == "fetch"));
}

#[test]
fn runs_add_up_usage_and_record_each_task() {
    let crew = Crew::builder("c")
        .agent(agent("a"))
        .task(task("first", "a", &[]))
        .task(task("second", "a", &["first"]))
        .build()
        .unwrap();
    let usage = TokenUsage { prompt_tokens: 3, completion_tokens: 4, total_tokens: 7 };
    let (run, _) = crew.start_kickoff(KickoffInput::new("g"));
    let (run, action) = run.on_agent_reply("  one  ", Some(usage));
    match &action {
        KickoffAction::AskAgent { messages, .. } => {
            assert!(messages[1].content.ends_with("Completed dependency outputs:\n### first\none"));
        }
        other => panic!("unexpected {:?}", other),
    }
    assert_eq!(run.outcomes().len(), 1);
    assert_eq!(run.usage(), usage);
    let (run, action) = run.on_agent_reply("<final_answer>two</final_answer>", Some(usage));
    let execution = match action {
        KickoffAction::Finished(execution) => execution,
        other => panic!("unexpected {:?}", other),
    };
    assert_eq!(execution.crew_name, "c");
    assert_eq!(execution.final_output, "two");
    assert_eq!(execution.tasks.len(), 2);
    assert_eq!(execution.tasks[0].output, "one");
    assert_eq!(execution.tasks[1].task_id, "second");
    assert_eq!(execution.usage, TokenUsage { prompt_tokens: 6, completion_tokens: 8, total_tokens: 14 });
    assert_eq!(execution.transcript.len(), 4);
    assert_eq!(execution.transcript[1].message, "a completed first");
    assert!(matches!(run.phase(), RunPhase::Done));
}

#[test]
fn usage_overflow_is_detected_before_a_reply_is_handed_over() {
    let crew = Crew::builder("c").agent(agent("a")).task(task("t", "a", &[])).build().unwrap();
    let (run, _) = crew.start_kickoff(KickoffInput::new("g"));
    let huge = TokenUsage { prompt_tokens: u32::MAX, completion_tokens: 0, total_tokens: 0 };
    assert!(!run.agent_reply_overflows("done", Some(huge)));
    let (run, _) = run.on_agent_reply("<tool_call>x</tool_call>", Some(huge));
    let (run, _) = run.on_directive("none", "");
    assert!(matches!(run.phase(), RunPhase::Done));
    let mut usage = huge;
    assert!(usage.would_overflow(&TokenUsage { prompt_tokens: 1, completion_tokens: 0, total_tokens: 0 }));
    usage.add_assign(TokenUsage { prompt_tokens: 0, completion_tokens: 2, total_tokens: 2 });
    assert_eq!(usage, TokenUsage { prompt_tokens: u32::MAX, completion_tokens: 2, total_tokens: 2 });
}

#[test]
fn agent_and_task_builders_report_what_is_missing() {
    let no_role = Agent::builder("a").goal("g").model("m").build().unwrap_err();
    assert!(matches!(no_role, CrewError::InvalidConfig(m) if m == "agent role is required"));
    let no_goal = Agent::builder("a").role("r").model("m").build().unwrap_err();
    assert!(matches!(no_goal, CrewError::InvalidConfig(m) if m == "agent goal is required"));
    let no_model = Agent::builder("a").role("r").goal("g").build().unwrap_err();
    assert!(matches!(no_model, CrewError::InvalidConfig(m) if m == "agent `a` requires a model"));
    let blank = Agent::builder(" ").role("r").goal("g").model("m").build().unwrap_err();
    assert!(matches!(blank, CrewError::InvalidConfig(m) if m == "agent id cannot be empty"));
    let zero = Agent::builder("a").role("r").goal("g").model("m").max_iterations(0).build().unwrap_err();
    assert!(matches!(zero, CrewError::InvalidConfig(m) if m == "agent `a` must allow at least one iteration"));

    let no_description = Task::builder("t").agent("a").build().unwrap_err();
    assert!(matches!(no_description, CrewError::InvalidConfig(m) if m == "task `t` requires a description"));
    let no_agent = Task::builder("t").description("d").build().unwrap_err();
    assert!(matches!(no_agent, CrewError::InvalidConfig(m) if m == "task `t` requires an agent"));
    let blank_task = Task::builder("").description("d").agent("a").build().unwrap_err();
    assert!(matches!(blank_task, CrewError::InvalidConfig(m) if m == "task id cannot be empty"));

    let built = Agent::builder("a")
        .role("r")
        .goal("g")
        .model("m")
        .tool(FnTool::new("x", "1"))
        .tool(FnTool::new("y", "2"))
        .tool(FnTool::new("x", "3"))
        .build()
        .unwrap();
    assert_eq!(built.find_tool("x"), Some(0));
    assert_eq!(built.find_tool("y"), Some(1));
    assert_eq!(built.find_tool("z"), None);
    assert_eq!(built.max_iterations(), 4);
    assert!(!built.allow_delegation());
    assert_eq!(built.backstory(), None);
    assert_eq!(OutputFormat::default(), OutputFormat::Markdown);
    assert_eq!(OutputFormat::Text.name(), "Text");
}
