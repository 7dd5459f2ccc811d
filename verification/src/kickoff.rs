//! A run of a crew, one decision at a time. The run says what to ask of a
//! model or a tool next; the caller does it and hands back what came of it.
//!
//! Tasks run in the order that the crew's dependency graph gives. Under a
//! manager each task is first briefed. An agent then works on its task in
//! turns: each turn asks its model; a reply that holds a `<tool_call>` tag has
//! the named tool called and its output handed back in the next turn, any
//! other reply is the task's output. An agent that has used up its turns fails
//! the run.
use vstd::prelude::*;

use crate::agent::{first_tool_named, AgentView};
use crate::crew::{
    agent_position, clone_events, clone_outcomes, crew_wf, events_view, has_agent, outcomes_view,
    Crew, CrewExecution, CrewExecutionView, CrewView, KickoffInput, KickoffInputView, Process,
    ProcessView, TaskOutcome, TaskOutcomeView, TranscriptEvent, TranscriptEventKind,
    TranscriptEventView,
};
use crate::error::{CrewError, CrewErrorView};
use crate::model::{
    clone_messages, messages_view, reported_usage, usage_fits, usage_or_zero, usage_sum, usage_zero,
    MessageRole, ModelMessage, ModelMessageView, TokenUsage,
};
use crate::prompts::{
    agent_system_prompt, contains_text, law_task_prompt_shows_brief, manager_prompt,
    manager_system_prompt, render_agent_system_prompt, render_manager_prompt, render_manager_system_prompt, render_task_prompt, task_prompt,
};
use crate::schedule::{in_range, ints, lemma_order_in_range, topological_result};
use crate::schedule_laws::{
    dep_placed_before, distinct_ids, is_topological_order, law_topological_order, lemma_covers_range,
};
use crate::task::{tasks_view, TaskView};
use crate::text::{
    clone_opt, tag_text, extract_tag, opt_as_str, opt_view, owned, push_str, str_equal,
    strings_view, final_answer_text, unwrap_final_answer,
};
use crate::tool::{calls_view, clone_calls, ToolCallRecord, ToolCallRecordView, ToolInput, ToolInputView};

verus! {

/// The mathematical view of a [`RunPhase`].
pub enum RunPhaseView {
    Briefing,
    Working,
    Parsing,
    Calling { tool: Seq<char>, input: Seq<char> },
    Done,
}

/// The mathematical view of a [`KickoffRun`].
pub struct KickoffRunView {
    pub crew: CrewView,
    pub kickoff: KickoffInputView,
    /// The indices of the crew's tasks in the order they run.
    pub order: Seq<int>,
    /// The position in `order` of the task under way.
    pub pos: nat,
    pub outcomes: Seq<TaskOutcomeView>,
    pub transcript: Seq<TranscriptEventView>,
    pub usage: TokenUsage,
    /// The usage that the manager's replies reported.
    pub manager_usage: TokenUsage,
    /// The index of the agent of the task under way.
    pub agent: int,
    /// The outcomes of the tasks that the task under way depends on.
    pub deps: Seq<TaskOutcomeView>,
    pub brief: Option<Seq<char>>,
    pub messages: Seq<ModelMessageView>,
    pub tool_calls: Seq<ToolCallRecordView>,
    pub task_usage: TokenUsage,
    /// The turns the agent has taken on the task under way.
    pub iteration: nat,
    pub phase: RunPhaseView,
}

/// The mathematical view of a [`KickoffAction`].
pub enum KickoffActionView {
    AskManager { messages: Seq<ModelMessageView>, max_tokens: u32 },
    AskAgent { agent_id: Seq<char>, messages: Seq<ModelMessageView> },
    ParseDirective { raw: Seq<char> },
    CallTool { agent_id: Seq<char>, tool_index: nat, input: ToolInputView },
    Finished(CrewExecutionView),
    Failed(CrewErrorView),
}

/// The task under way.
pub open spec fn current_task(s: KickoffRunView) -> TaskView {
    s.crew.tasks[s.order[s.pos as int]]
}

/// The agent of the task under way.
pub open spec fn current_agent(s: KickoffRunView) -> AgentView {
    s.crew.agents[s.agent]
}

/// A message with the given role.
pub open spec fn message(role: MessageRole, content: Seq<char>) -> ModelMessageView {
    ModelMessageView { role, content }
}

/// An event of the transcript.
pub open spec fn event(
    kind: TranscriptEventKind,
    task_id: Option<Seq<char>>,
    agent_id: Option<Seq<char>>,
    text: Seq<char>,
) -> TranscriptEventView {
    TranscriptEventView { kind, task_id, agent_id, message: text }
}

/// `i` is the first outcome of task `id`.
pub open spec fn is_first_outcome(outs: Seq<TaskOutcomeView>, id: Seq<char>, i: int) -> bool {
    &&& 0 <= i < outs.len()
    &&& outs[i].task_id == id
    &&& forall|k: int| 0 <= k < i ==> (#[trigger] outs[k]).task_id != id
}

/// The index of the first outcome of task `id`, or -1.
pub open spec fn outcome_index(outs: Seq<TaskOutcomeView>, id: Seq<char>) -> int {
    if exists|i: int| is_first_outcome(outs, id, i) {
        choose|i: int| is_first_outcome(outs, id, i)
    } else {
        -1
    }
}

/// The outcomes of the dependencies `deps`, in their order, or the first
/// dependency that has none.
pub open spec fn gather_outcomes(outs: Seq<TaskOutcomeView>, deps: Seq<Seq<char>>) -> Result<
    Seq<TaskOutcomeView>,
    Seq<char>,
>
    decreases deps.len(),
{
    if deps.len() == 0 {
        Ok(Seq::empty())
    } else {
        match gather_outcomes(outs, deps.drop_last()) {
            Err(d) => Err(d),
            Ok(found) => {
                let i = outcome_index(outs, deps.last());
                if i < 0 {
                    Err(deps.last())
                } else {
                    Ok(found.push(outs[i]))
                }
            },
        }
    }
}

/// The messages that ask the manager for a brief.
pub open spec fn manager_messages(
    m: AgentView,
    t: TaskView,
    deps: Seq<TaskOutcomeView>,
    k: KickoffInputView,
) -> Seq<ModelMessageView> {
    seq![
        message(MessageRole::System, manager_system_prompt(m)),
        message(MessageRole::User, manager_prompt(t, deps, k)),
    ]
}

/// The messages that an agent's work on a task starts from.
pub open spec fn work_messages(
    a: AgentView,
    t: TaskView,
    k: KickoffInputView,
    deps: Seq<TaskOutcomeView>,
    brief: Option<Seq<char>>,
) -> Seq<ModelMessageView> {
    seq![
        message(MessageRole::System, agent_system_prompt(a)),
        message(MessageRole::User, task_prompt(t, k, deps, brief)),
    ]
}

/// The agent takes its next turn, or fails the run where it has none left.
pub open spec fn agent_turn(s: KickoffRunView) -> (KickoffRunView, KickoffActionView) {
    let a = current_agent(s);
    if s.iteration < a.max_iterations {
        (
            KickoffRunView { phase: RunPhaseView::Working, ..s },
            KickoffActionView::AskAgent { agent_id: a.id, messages: s.messages },
        )
    } else {
        (
            KickoffRunView { phase: RunPhaseView::Done, ..s },
            KickoffActionView::Failed(
                CrewErrorView::MaxIterationsExceeded { agent: a.id, task: current_task(s).id },
            ),
        )
    }
}

/// The agent starts work on the task under way, with the manager's brief where
/// there is one.
pub open spec fn start_work(s: KickoffRunView, brief: Option<Seq<char>>) -> (KickoffRunView, KickoffActionView) {
    agent_turn(
        KickoffRunView {
            brief,
            messages: work_messages(current_agent(s), current_task(s), s.kickoff, s.deps, brief),
            tool_calls: Seq::empty(),
            task_usage: usage_zero(),
            iteration: 0,
            ..s
        },
    )
}

/// The run ends: its record, with the output of the last task as the final
/// output.
pub open spec fn finish(s: KickoffRunView) -> (KickoffRunView, KickoffActionView) {
    let done = KickoffRunView { phase: RunPhaseView::Done, ..s };
    if s.outcomes.len() == 0 {
        (
            done,
            KickoffActionView::Failed(
                CrewErrorView::InvalidConfig("a crew must contain at least one task"@),
            ),
        )
    } else {
        (
            done,
            KickoffActionView::Finished(
                CrewExecutionView {
                    crew_name: s.crew.name,
                    kickoff: s.kickoff,
                    final_output: s.outcomes.last().output,
                    tasks: s.outcomes,
                    transcript: s.transcript,
                    usage: s.usage,
                },
            ),
        )
    }
}

/// The task at `pos` begins: its dependencies' outcomes are gathered, its
/// start is recorded, and the manager is asked for a brief or the agent starts
/// work. Past the last task the run ends.
pub open spec fn begin_task(s: KickoffRunView) -> (KickoffRunView, KickoffActionView) {
    if s.pos >= s.order.len() {
        finish(s)
    } else {
        let t = s.crew.tasks[s.order[s.pos as int]];
        let ai = agent_position(s.crew.agents, t.agent);
        let a = s.crew.agents[ai];
        match gather_outcomes(s.outcomes, t.depends_on) {
            Err(d) => (
                KickoffRunView { phase: RunPhaseView::Done, ..s },
                KickoffActionView::Failed(CrewErrorView::MissingTask(d)),
            ),
            Ok(deps) => {
                let started = event(
                    TranscriptEventKind::TaskStarted,
                    Some(t.id),
                    Some(a.id),
                    a.role + " started "@ + t.id,
                );
                let s2 = KickoffRunView {
                    agent: ai,
                    deps,
                    transcript: s.transcript.push(started),
                    brief: None,
                    ..s
                };
                match s.crew.process {
                    ProcessView::Hierarchical { manager } => (
                        KickoffRunView { phase: RunPhaseView::Briefing, ..s2 },
                        KickoffActionView::AskManager {
                            messages: manager_messages(manager, t, deps, s.kickoff),
                            max_tokens: 300,
                        },
                    ),
                    ProcessView::Sequential => start_work(s2, None),
                }
            },
        }
    }
}

/// The state before the first task.
pub open spec fn initial_run(c: CrewView, k: KickoffInputView) -> KickoffRunView {
    KickoffRunView {
        crew: c,
        kickoff: k,
        order: topological_result(c.tasks)->Ok_0,
        pos: 0,
        outcomes: Seq::empty(),
        transcript: Seq::empty(),
        usage: usage_zero(),
        manager_usage: usage_zero(),
        agent: 0,
        deps: Seq::empty(),
        brief: None,
        messages: Seq::empty(),
        tool_calls: Seq::empty(),
        task_usage: usage_zero(),
        iteration: 0,
        phase: RunPhaseView::Done,
    }
}

/// A run's start: the first task begins.
pub open spec fn kickoff_start(c: CrewView, k: KickoffInputView) -> (KickoffRunView, KickoffActionView) {
    begin_task(initial_run(c, k))
}

/// The manager's reply: its final answer is the brief, its usage counts
/// toward the run, the brief is recorded, and the agent starts work.
pub open spec fn on_manager_reply(s: KickoffRunView, content: Seq<char>, u: Option<TokenUsage>) -> (
    KickoffRunView,
    KickoffActionView,
) {
    let brief = final_answer_text(content);
    let briefed = event(TranscriptEventKind::ManagerBriefed, Some(current_task(s).id), None, brief);
    start_work(
        KickoffRunView {
            usage: usage_sum(s.usage, reported_usage(u)),
            manager_usage: usage_sum(s.manager_usage, reported_usage(u)),
            transcript: s.transcript.push(briefed),
            ..s
        },
        Some(brief),
    )
}

/// The task is done with `output`: its outcome is recorded, its usage counts
/// toward the run, and the next task begins.
pub open spec fn complete_task(s: KickoffRunView, output: Seq<char>) -> (KickoffRunView, KickoffActionView) {
    let t = current_task(s);
    let a = current_agent(s);
    let outcome = TaskOutcomeView {
        task_id: t.id,
        agent_id: a.id,
        output,
        tool_calls: s.tool_calls,
        manager_brief: s.brief,
        usage: s.task_usage,
    };
    let completed = event(
        TranscriptEventKind::TaskCompleted,
        Some(t.id),
        Some(a.id),
        a.id + " completed "@ + t.id,
    );
    begin_task(
        KickoffRunView {
            usage: usage_sum(s.usage, s.task_usage),
            transcript: s.transcript.push(completed),
            outcomes: s.outcomes.push(outcome),
            pos: s.pos + 1,
            ..s
        },
    )
}

/// The agent's reply: it joins the conversation and its usage counts toward
/// the task. A reply with a `<tool_call>` tag has the tag's text parsed; any
/// other reply's final answer is the task's output.
pub open spec fn on_agent_reply(s: KickoffRunView, content: Seq<char>, u: Option<TokenUsage>) -> (
    KickoffRunView,
    KickoffActionView,
) {
    let s2 = KickoffRunView {
        task_usage: usage_sum(s.task_usage, reported_usage(u)),
        messages: s.messages.push(message(MessageRole::Assistant, content)),
        iteration: s.iteration + 1,
        ..s
    };
    match tag_text(content, "tool_call"@) {
        Some(raw) => (
            KickoffRunView { phase: RunPhaseView::Parsing, ..s2 },
            KickoffActionView::ParseDirective { raw },
        ),
        None => complete_task(s2, final_answer_text(content)),
    }
}

/// The parsed tool call: the agent's first tool of that name is called with
/// the input, or the run fails where the agent has none.
pub open spec fn on_directive(s: KickoffRunView, tool: Seq<char>, input: Seq<char>) -> (
    KickoffRunView,
    KickoffActionView,
) {
    let a = current_agent(s);
    let i = first_tool_named(a.tools, tool);
    if i < 0 {
        (
            KickoffRunView { phase: RunPhaseView::Done, ..s },
            KickoffActionView::Failed(CrewErrorView::MissingTool(tool)),
        )
    } else {
        (
            KickoffRunView { phase: RunPhaseView::Calling { tool, input }, ..s },
            KickoffActionView::CallTool {
                agent_id: a.id,
                tool_index: i as nat,
                input: ToolInputView {
                    value: input,
                    task_id: current_task(s).id,
                    agent_id: a.id,
                    metadata: Seq::empty(),
                },
            },
        )
    }
}

/// The message that hands a tool's output back to the agent.
pub open spec fn tool_result_message(tool: Seq<char>, output: Seq<char>) -> Seq<char> {
    "Tool `"@ + tool + "` returned the following result:\n"@ + output
}

/// The tool's output: the call is recorded and handed back to the agent,
/// which takes its next turn.
pub open spec fn on_tool_output(s: KickoffRunView, output: Seq<char>) -> (KickoffRunView, KickoffActionView) {
    let (tool, input) = match s.phase {
        RunPhaseView::Calling { tool, input } => (tool, input),
        _ => (Seq::empty(), Seq::empty()),
    };
    let t = current_task(s);
    let a = current_agent(s);
    let called = event(TranscriptEventKind::ToolCalled, Some(t.id), Some(a.id), a.id + " called "@ + tool);
    agent_turn(
        KickoffRunView {
            transcript: s.transcript.push(called),
            tool_calls: s.tool_calls.push(ToolCallRecordView { tool, input, output }),
            messages: s.messages.push(message(MessageRole::Tool, tool_result_message(tool, output))),
            ..s
        },
    )
}

/// Handing the manager's reply over overflows no usage counter.
pub open spec fn manager_reply_fits(s: KickoffRunView, u: Option<TokenUsage>) -> bool {
    usage_fits(s.usage, reported_usage(u))
}

/// Handing the agent's reply over overflows no usage counter: that of the
/// task, and, where the reply ends the task, that of the run.
pub open spec fn agent_reply_fits(s: KickoffRunView, content: Seq<char>, u: Option<TokenUsage>) -> bool {
    &&& usage_fits(s.task_usage, reported_usage(u))
    &&& tag_text(content, "tool_call"@) is None ==> usage_fits(
        s.usage,
        usage_sum(s.task_usage, reported_usage(u)),
    )
}

proof fn lemma_first_outcome_unique(outs: Seq<TaskOutcomeView>, id: Seq<char>, i: int)
    requires
        is_first_outcome(outs, id, i),
    ensures
        outcome_index(outs, id) == i,
{
    let c = choose|c: int| is_first_outcome(outs, id, c);
    assert(is_first_outcome(outs, id, c));
    if c < i {
        assert(outs[c].task_id != id);
    } else if i < c {
        assert(outs[i].task_id != id);
    }
}

/// The index of the first outcome of task `id`.
fn find_outcome(outs: &Vec<TaskOutcome>, id: &str) -> (r: Option<usize>)
    ensures
        r matches Some(i) ==> i < outs@.len() && i as int == outcome_index(outcomes_view(outs@), id@),
        r is None ==> outcome_index(outcomes_view(outs@), id@) == -1,
{
    let ghost ov = outcomes_view(outs@);
    let mut i: usize = 0;
    while i < outs.len()
        invariant
            i <= outs@.len(),
            ov == outcomes_view(outs@),
            forall|k: int| 0 <= k < i ==> (#[trigger] ov[k]).task_id != id@,
        decreases outs.len() - i,
    {
        if str_equal(outs[i].task_id.as_str(), id) {
            proof {
                assert(is_first_outcome(ov, id@, i as int));
                lemma_first_outcome_unique(ov, id@, i as int);
            }
            return Some(i);
        }
        i = i + 1;
    }
    assert(!exists|j: int| is_first_outcome(ov, id@, j)) by {
        if exists|j: int| is_first_outcome(ov, id@, j) {
            let j = choose|j: int| is_first_outcome(ov, id@, j);
            assert(ov[j].task_id != id@);
        }
    }
    None
}

proof fn lemma_gather_err_stays(outs: Seq<TaskOutcomeView>, deps: Seq<Seq<char>>, k: int)
    requires
        0 <= k <= deps.len(),
        gather_outcomes(outs, deps.take(k)) is Err,
    ensures
        gather_outcomes(outs, deps) == gather_outcomes(outs, deps.take(k)),
    decreases deps.len() - k,
{
    if k < deps.len() {
        assert(deps.take(k + 1).drop_last() =~= deps.take(k));
        lemma_gather_err_stays(outs, deps, k + 1);
    } else {
        assert(deps.take(k) =~= deps);
    }
}

proof fn lemma_gather_ok(outs: Seq<TaskOutcomeView>, deps: Seq<Seq<char>>)
    requires
        gather_outcomes(outs, deps) is Ok,
    ensures
        gather_outcomes(outs, deps)->Ok_0.len() == deps.len(),
        forall|k: int|
            0 <= k < deps.len() ==> (#[trigger] gather_outcomes(outs, deps)->Ok_0[k]).task_id == deps[k],
    decreases deps.len(),
{
    if deps.len() > 0 {
        lemma_gather_ok(outs, deps.drop_last());
        let i = outcome_index(outs, deps.last());
        assert(is_first_outcome(outs, deps.last(), i));
        let v = gather_outcomes(outs, deps)->Ok_0;
        assert forall|k: int| 0 <= k < deps.len() implies (#[trigger] v[k]).task_id == deps[k] by {
            if k < deps.len() - 1 {
                assert(v[k] == gather_outcomes(outs, deps.drop_last())->Ok_0[k]);
                assert(deps.drop_last()[k] == deps[k]);
            }
        }
    }
}

/// The outcomes of the dependencies `deps`, or the first dependency that has none.
fn gather(outs: &Vec<TaskOutcome>, deps: &[String]) -> (r: Result<Vec<TaskOutcome>, String>)
    ensures
        match r {
            Ok(v) => gather_outcomes(outcomes_view(outs@), strings_view(deps@)) == Ok::<
                Seq<TaskOutcomeView>,
                Seq<char>,
            >(outcomes_view(v@)),
            Err(d) => gather_outcomes(outcomes_view(outs@), strings_view(deps@)) == Err::<
                Seq<TaskOutcomeView>,
                Seq<char>,
            >(d@),
        },
{
    let ghost ov = outcomes_view(outs@);
    let ghost dv = strings_view(deps@);
    let mut found: Vec<TaskOutcome> = Vec::new();
    let mut k: usize = 0;
    assert(dv.take(0) =~= Seq::<Seq<char>>::empty());
    assert(outcomes_view(found@) =~= Seq::<TaskOutcomeView>::empty());
    while k < deps.len()
        invariant
            k <= deps@.len(),
            ov == outcomes_view(outs@),
            dv == strings_view(deps@),
            gather_outcomes(ov, dv.take(k as int)) == Ok::<Seq<TaskOutcomeView>, Seq<char>>(
                outcomes_view(found@),
            ),
        decreases deps.len() - k,
    {
        let d = deps[k].as_str();
        assert(dv.take(k + 1).drop_last() =~= dv.take(k as int));
        assert(dv.take(k + 1).last() == d@);
        match find_outcome(outs, d) {
            None => {
                proof {
                    lemma_gather_err_stays(ov, dv, k + 1);
                }
                return Err(owned(d));
            },
            Some(i) => {
                let ghost before = outcomes_view(found@);
                found.push(outs[i].duplicate());
                assert(outcomes_view(found@) =~= before.push(ov[i as int]));
            },
        }
        k = k + 1;
    }
    assert(dv.take(k as int) =~= dv);
    Ok(found)
}

/// The order in which a crew runs its tasks: the indices of its tasks.
pub open spec fn crew_order(c: CrewView) -> Seq<int> {
    topological_result(c.tasks)->Ok_0
}

/// The record of a finished run holds one outcome for each task of the crew,
/// in the order the tasks ran, each by the task's agent and with a manager's
/// brief exactly where the crew has a manager; without a manager the run's
/// usage is that of its tasks added up; the final output is that of the last
/// task.
pub open spec fn record_follows_order(c: CrewView, e: CrewExecutionView) -> bool {
    let order = crew_order(c);
    &&& e.crew_name == c.name
    &&& e.tasks.len() == c.tasks.len()
    &&& forall|i: int|
        0 <= i < e.tasks.len() ==> (#[trigger] e.tasks[i]).task_id == c.tasks[order[i]].id
            && e.tasks[i].agent_id == c.tasks[order[i]].agent
            && (e.tasks[i].manager_brief is Some <==> c.process is Hierarchical)
    &&& c.process is Sequential ==> e.usage == total_usage(e.tasks)
    &&& e.final_output == e.tasks.last().output
}

/// The usage of a finished run is that of its tasks and of the manager's
/// replies added up.
pub open spec fn record_usage_adds_up(e: CrewExecutionView, manager_usage: TokenUsage) -> bool {
    usage_adds_up(e.usage, total_usage(e.tasks), manager_usage)
}

/// The action is a failure for a dependency without an outcome.
pub open spec fn is_missing_task(a: KickoffActionView) -> bool {
    a matches KickoffActionView::Failed(CrewErrorView::MissingTask(_))
}

proof fn lemma_gather_all_found(outs: Seq<TaskOutcomeView>, deps: Seq<Seq<char>>)
    requires
        forall|k: int| 0 <= k < deps.len() ==> outcome_index(outs, #[trigger] deps[k]) >= 0,
    ensures
        gather_outcomes(outs, deps) is Ok,
    decreases deps.len(),
{
    if deps.len() > 0 {
        assert forall|k: int| 0 <= k < deps.drop_last().len() implies outcome_index(
            outs,
            #[trigger] deps.drop_last()[k],
        ) >= 0 by {
            assert(deps.drop_last()[k] == deps[k]);
        }
        lemma_gather_all_found(outs, deps.drop_last());
        assert(outcome_index(outs, deps[deps.len() - 1]) >= 0);
    }
}

proof fn lemma_has_first_outcome(outs: Seq<TaskOutcomeView>, id: Seq<char>, q: int)
    requires
        0 <= q < outs.len(),
        outs[q].task_id == id,
    ensures
        outcome_index(outs, id) >= 0,
    decreases q,
{
    if exists|k: int| 0 <= k < q && outs[k].task_id == id {
        let k = choose|k: int| 0 <= k < q && outs[k].task_id == id;
        lemma_has_first_outcome(outs, id, k);
    } else {
        assert(is_first_outcome(outs, id, q));
    }
}

/// Where task ids are distinct, every dependency of the task at `pos` ran
/// before it, so its outcomes are found.
proof fn lemma_dependencies_found(s: KickoffRunView)
    requires
        run_base(s),
        s.pos < s.order.len(),
        distinct_ids(s.crew.tasks),
    ensures
        gather_outcomes(s.outcomes, current_task(s).depends_on) is Ok,
{
    law_topological_order(s.crew.tasks);
    let t = current_task(s);
    let p = s.pos as int;
    assert forall|k: int| 0 <= k < t.depends_on.len() implies outcome_index(
        s.outcomes,
        #[trigger] t.depends_on[k],
    ) >= 0 by {
        assert(dep_placed_before(s.crew.tasks, s.order, p, k));
        let q = choose|q: int| 0 <= q < p && s.crew.tasks[s.order[q]].id == s.crew.tasks[s.order[p]].depends_on[k];
        assert(s.outcomes[q].task_id == s.crew.tasks[s.order[q]].id);
        lemma_has_first_outcome(s.outcomes, t.depends_on[k], q);
    }
    lemma_gather_all_found(s.outcomes, t.depends_on);
}

/// A finished run of a crew whose task ids are distinct ran every task once,
/// and each after all the tasks it depends on.
pub proof fn law_finished_run_respects_dependencies(c: CrewView, e: CrewExecutionView)
    requires
        crew_wf(c),
        distinct_ids(c.tasks),
        record_follows_order(c, e),
    ensures
        forall|t: int|
            #![trigger c.tasks[t]]
            0 <= t < c.tasks.len() ==> exists|i: int|
                #![trigger e.tasks[i]]
                0 <= i < e.tasks.len() && e.tasks[i].task_id == c.tasks[t].id,
        forall|i: int, j: int| 0 <= i < j < e.tasks.len() ==> (#[trigger] e.tasks[i]).task_id != (#[trigger] e.tasks[j]).task_id,
        forall|i: int, k: int|
            #![trigger c.tasks[crew_order(c)[i]].depends_on[k]]
            0 <= i < e.tasks.len() && 0 <= k < c.tasks[crew_order(c)[i]].depends_on.len() ==> exists|j: int|
                #![trigger e.tasks[j]]
                0 <= j < i && e.tasks[j].task_id == c.tasks[crew_order(c)[i]].depends_on[k],
{
    law_topological_order(c.tasks);
    let order = crew_order(c);
    assert(is_topological_order(c.tasks, order));
    lemma_covers_range(order, c.tasks.len() as int);
    assert forall|t: int| #![trigger c.tasks[t]] 0 <= t < c.tasks.len() implies exists|i: int|
        #![trigger e.tasks[i]]
        0 <= i < e.tasks.len() && e.tasks[i].task_id == c.tasks[t].id by {
        assert(order.contains(t));
        let i = choose|i: int| 0 <= i < order.len() && order[i] == t;
        assert(e.tasks[i].task_id == c.tasks[t].id);
    }
    assert forall|i: int, j: int| 0 <= i < j < e.tasks.len() implies (#[trigger] e.tasks[i]).task_id != (#[trigger] e.tasks[j]).task_id by {
        assert(order[i] != order[j]);
        assert(e.tasks[i].task_id == c.tasks[order[i]].id);
        assert(e.tasks[j].task_id == c.tasks[order[j]].id);
    }
    assert forall|i: int, k: int|
        #![trigger c.tasks[crew_order(c)[i]].depends_on[k]]
        0 <= i < e.tasks.len() && 0 <= k < c.tasks[crew_order(c)[i]].depends_on.len() implies exists|j: int|
        #![trigger e.tasks[j]]
        0 <= j < i && e.tasks[j].task_id == c.tasks[crew_order(c)[i]].depends_on[k] by {
        lemma_dependency_ran_before(c, e, i, k);
    }
}

proof fn lemma_dependency_ran_before(c: CrewView, e: CrewExecutionView, i: int, k: int)
    requires
        crew_wf(c),
        distinct_ids(c.tasks),
        record_follows_order(c, e),
        0 <= i < e.tasks.len(),
        0 <= k < c.tasks[crew_order(c)[i]].depends_on.len(),
    ensures
        exists|j: int| #![trigger e.tasks[j]] 0 <= j < i && e.tasks[j].task_id == c.tasks[crew_order(c)[i]].depends_on[k],
{
    law_topological_order(c.tasks);
    let order = crew_order(c);
    assert(is_topological_order(c.tasks, order));
    assert(dep_placed_before(c.tasks, order, i, k));
    let q = choose|q: int| 0 <= q < i && c.tasks[order[q]].id == c.tasks[order[i]].depends_on[k];
    assert(e.tasks[q].task_id == c.tasks[order[q]].id);
}

/// Under a manager, the manager's final answer is the brief: the task's
/// prompt that the agent is then asked with hands it over, and the run keeps
/// it for the task's outcome.
pub proof fn law_manager_brief_reaches_agent(s: KickoffRunView, content: Seq<char>, u: Option<TokenUsage>)
    requires
        run_wf(s),
        s.phase is Briefing,
    ensures
        on_manager_reply(s, content, u).0.brief == Some(final_answer_text(content)),
        on_manager_reply(s, content, u).1 matches KickoffActionView::AskAgent { messages, .. } ==> {
            &&& messages.len() == 2
            &&& messages[1].role == MessageRole::User
            &&& messages[1].content == task_prompt(
                current_task(s),
                s.kickoff,
                s.deps,
                Some(final_answer_text(content)),
            )
            &&& contains_text(
                messages[1].content,
                "\n\nManager brief:\n"@ + final_answer_text(content) + "\n\nKickoff context:\n"@,
            )
        },
{
    law_task_prompt_shows_brief(current_task(s), s.kickoff, s.deps, final_answer_text(content));
}

/// The brief that an agent's task prompt hands over is the one its outcome
/// records: a reply that ends the task records the run's brief, the same
/// one the conversation opened with.
pub proof fn law_outcome_records_prompted_brief(s: KickoffRunView, content: Seq<char>, u: Option<TokenUsage>)
    requires
        run_wf(s),
        s.phase is Working,
        tag_text(content, "tool_call"@) is None,
    ensures
        s.messages[1].content == task_prompt(current_task(s), s.kickoff, s.deps, s.brief),
        on_agent_reply(s, content, u).0.outcomes.len() == s.pos + 1,
        on_agent_reply(s, content, u).0.outcomes[s.pos as int].manager_brief == s.brief,
        on_agent_reply(s, content, u).0.outcomes[s.pos as int].task_id == current_task(s).id,
{
}

/// Where a run stands.
#[derive(Debug)]
pub enum RunPhase {
    /// Waiting for the manager's reply.
    Briefing,
    /// Waiting for the agent's reply.
    Working,
    /// Waiting for the agent's tool call to be parsed.
    Parsing,
    /// Waiting for the output of the named tool.
    Calling { tool: String, input: String },
    /// Finished or failed.
    Done,
}

impl View for RunPhase {
    type V = RunPhaseView;

    open spec fn view(&self) -> RunPhaseView {
        match self {
            RunPhase::Briefing => RunPhaseView::Briefing,
            RunPhase::Working => RunPhaseView::Working,
            RunPhase::Parsing => RunPhaseView::Parsing,
            RunPhase::Calling { tool, input } => RunPhaseView::Calling { tool: tool@, input: input@ },
            RunPhase::Done => RunPhaseView::Done,
        }
    }
}

/// What the caller does next in a run of a crew.
#[derive(Debug)]
pub enum KickoffAction {
    /// Ask the manager's model, with the given token limit, and hand its reply
    /// to [`KickoffRun::on_manager_reply`].
    AskManager { messages: Vec<ModelMessage>, max_tokens: u32 },
    /// Ask the model of the agent with this id and hand its reply to
    /// [`KickoffRun::on_agent_reply`].
    AskAgent { agent_id: String, messages: Vec<ModelMessage> },
    /// Parse this text as a JSON object with the string fields `tool` and
    /// `input` and hand them to [`KickoffRun::on_directive`].
    ParseDirective { raw: String },
    /// Call the agent's tool at this index and hand its output to
    /// [`KickoffRun::on_tool_output`].
    CallTool { agent_id: String, tool_index: usize, input: ToolInput },
    /// The run is over.
    Finished(CrewExecution),
    /// The run failed.
    Failed(CrewError),
}

impl View for KickoffAction {
    type V = KickoffActionView;

    open spec fn view(&self) -> KickoffActionView {
        match self {
            KickoffAction::AskManager { messages, max_tokens } => KickoffActionView::AskManager {
                messages: messages_view(messages@),
                max_tokens: *max_tokens,
            },
            KickoffAction::AskAgent { agent_id, messages } => KickoffActionView::AskAgent {
                agent_id: agent_id@,
                messages: messages_view(messages@),
            },
            KickoffAction::ParseDirective { raw } => KickoffActionView::ParseDirective { raw: raw@ },
            KickoffAction::CallTool { agent_id, tool_index, input } => KickoffActionView::CallTool {
                agent_id: agent_id@,
                tool_index: *tool_index as nat,
                input: input@,
            },
            KickoffAction::Finished(e) => KickoffActionView::Finished(e@),
            KickoffAction::Failed(e) => KickoffActionView::Failed(e@),
        }
    }
}

/// The state of a run.
struct RunState<'a> {
    crew: &'a Crew,
    kickoff: KickoffInput,
    order: Vec<usize>,
    pos: usize,
    outcomes: Vec<TaskOutcome>,
    transcript: Vec<TranscriptEvent>,
    usage: TokenUsage,
    manager_usage: Ghost<TokenUsage>,
    agent: usize,
    deps: Vec<TaskOutcome>,
    brief: Option<String>,
    messages: Vec<ModelMessage>,
    tool_calls: Vec<ToolCallRecord>,
    task_usage: TokenUsage,
    iteration: usize,
    phase: RunPhase,
}

impl<'a> View for RunState<'a> {
    type V = KickoffRunView;

    closed spec fn view(&self) -> KickoffRunView {
        KickoffRunView {
            crew: self.crew@,
            kickoff: self.kickoff@,
            order: ints(self.order@),
            pos: self.pos as nat,
            outcomes: outcomes_view(self.outcomes@),
            transcript: events_view(self.transcript@),
            usage: self.usage,
            manager_usage: self.manager_usage@,
            agent: self.agent as int,
            deps: outcomes_view(self.deps@),
            brief: opt_view(self.brief),
            messages: messages_view(self.messages@),
            tool_calls: calls_view(self.tool_calls@),
            task_usage: self.task_usage,
            iteration: self.iteration as nat,
            phase: self.phase@,
        }
    }
}

/// What holds of every state between tasks: the crew is well formed, the
/// order is that of its tasks, and the position is within it.
pub open spec fn run_base(s: KickoffRunView) -> bool {
    &&& crew_wf(s.crew)
    &&& s.order == topological_result(s.crew.tasks)->Ok_0
    &&& s.pos <= s.order.len()
    &&& follows_order(s)
}

/// There is one outcome for each task run so far, each by the task's agent,
/// in the order the tasks ran, with a brief exactly where the crew has a
/// manager; the usage so far is that of the outcomes and of the manager's
/// replies added up, and without a manager there are none of the latter.
pub open spec fn follows_order(s: KickoffRunView) -> bool {
    &&& s.outcomes.len() == s.pos
    &&& forall|i: int|
        0 <= i < s.pos ==> (#[trigger] s.outcomes[i]).task_id == s.crew.tasks[s.order[i]].id
            && s.outcomes[i].agent_id == s.crew.tasks[s.order[i]].agent
            && (s.outcomes[i].manager_brief is Some <==> s.crew.process is Hierarchical)
    &&& usage_adds_up(s.usage, total_usage(s.outcomes), s.manager_usage)
    &&& s.crew.process is Sequential ==> s.manager_usage == usage_zero()
}

/// Each counter of `whole` is that of `a` and `b` added, with no overflow.
pub open spec fn usage_adds_up(whole: TokenUsage, a: TokenUsage, b: TokenUsage) -> bool {
    &&& whole.prompt_tokens == a.prompt_tokens + b.prompt_tokens
    &&& whole.completion_tokens == a.completion_tokens + b.completion_tokens
    &&& whole.total_tokens == a.total_tokens + b.total_tokens
}

/// The usage of all the outcomes added up.
pub open spec fn total_usage(outs: Seq<TaskOutcomeView>) -> TokenUsage
    decreases outs.len(),
{
    if outs.len() == 0 {
        usage_zero()
    } else {
        usage_sum(total_usage(outs.drop_last()), outs.last().usage)
    }
}

/// The outcomes handed to the task under way are those of its dependencies,
/// one for each, in the order it names them.
pub open spec fn deps_match(s: KickoffRunView) -> bool {
    &&& s.deps.len() == current_task(s).depends_on.len()
    &&& forall|k: int|
        0 <= k < s.deps.len() ==> (#[trigger] s.deps[k]).task_id == current_task(s).depends_on[k]
}

/// What holds of every state of a run: while it is under way, a task is
/// under way with its agent, and an agent waiting for its reply has a turn
/// left.
pub open spec fn run_wf(s: KickoffRunView) -> bool {
    &&& run_base(s)
    &&& !(s.phase is Done) ==> {
        &&& s.pos < s.order.len()
        &&& 0 <= s.agent < s.crew.agents.len()
        &&& s.agent == agent_position(s.crew.agents, current_task(s).agent)
        &&& deps_match(s)
    }
    &&& s.phase is Briefing ==> s.crew.process is Hierarchical
    &&& (s.phase is Working || s.phase is Parsing || s.phase is Calling) ==> (s.brief is Some
        <==> s.crew.process is Hierarchical)
    &&& (s.phase is Working || s.phase is Parsing || s.phase is Calling) ==> started_from_prompts(s)
    &&& s.phase is Working ==> s.iteration < current_agent(s).max_iterations
    &&& (s.phase is Parsing || s.phase is Calling) ==> s.iteration <= current_agent(s).max_iterations
}

/// The agent's conversation on the task under way opens with its system
/// prompt and then the task's prompt, which hands over the manager's brief
/// that the task's outcome will record.
pub open spec fn started_from_prompts(s: KickoffRunView) -> bool {
    &&& s.messages.len() >= 2
    &&& s.messages[0] == message(MessageRole::System, agent_system_prompt(current_agent(s)))
    &&& s.messages[1] == message(
        MessageRole::User,
        task_prompt(current_task(s), s.kickoff, s.deps, s.brief),
    )
}

proof fn lemma_current_task_in_range(s: KickoffRunView)
    requires
        run_base(s),
        s.pos < s.order.len(),
    ensures
        0 <= s.order[s.pos as int] < s.crew.tasks.len(),
        has_agent(s.crew.agents, current_task(s).agent),
{
    lemma_order_in_range(s.crew.tasks);
    let t = s.order[s.pos as int];
    assert(has_agent(s.crew.agents, s.crew.tasks[t].agent));
}

impl<'a> RunState<'a> {
    /// The agent takes its next turn, or fails the run.
    fn agent_turn(&mut self) -> (a: KickoffAction)
        requires
            run_base(old(self)@),
            old(self)@.pos < old(self)@.order.len(),
            0 <= old(self)@.agent < old(self)@.crew.agents.len(),
            old(self)@.agent == agent_position(old(self)@.crew.agents, current_task(old(self)@).agent),
            deps_match(old(self)@),
            old(self)@.brief is Some <==> old(self)@.crew.process is Hierarchical,
            started_from_prompts(old(self)@),
        ensures
            (final(self)@, a@) == agent_turn(old(self)@),
            run_wf(final(self)@),
    {
        let crew = self.crew;
        proof {
            lemma_current_task_in_range(self@);
        }
        let task = &crew.tasks()[self.order[self.pos]];
        let agent = &crew.agents()[self.agent];
        if self.iteration < agent.max_iterations() {
            self.phase = RunPhase::Working;
            KickoffAction::AskAgent { agent_id: owned(agent.id()), messages: clone_messages(&self.messages) }
        } else {
            self.phase = RunPhase::Done;
            KickoffAction::Failed(
                CrewError::MaxIterationsExceeded { agent: owned(agent.id()), task: owned(task.id()) },
            )
        }
    }

    /// The agent starts work on the task under way.
    fn start_work(&mut self, brief: Option<String>) -> (a: KickoffAction)
        requires
            run_base(old(self)@),
            old(self)@.pos < old(self)@.order.len(),
            0 <= old(self)@.agent < old(self)@.crew.agents.len(),
            old(self)@.agent == agent_position(old(self)@.crew.agents, current_task(old(self)@).agent),
            deps_match(old(self)@),
            brief is Some <==> old(self)@.crew.process is Hierarchical,
        ensures
            (final(self)@, a@) == start_work(old(self)@, opt_view(brief)),
            run_wf(final(self)@),
    {
        let crew = self.crew;
        proof {
            lemma_current_task_in_range(self@);
        }
        let task = &crew.tasks()[self.order[self.pos]];
        let agent = &crew.agents()[self.agent];
        let system = render_agent_system_prompt(agent);
        let user = render_task_prompt(task, &self.kickoff, self.deps.as_slice(), opt_as_str(&brief));
        let mut messages: Vec<ModelMessage> = Vec::new();
        messages.push(ModelMessage::system(system.as_str()));
        messages.push(ModelMessage::user(user.as_str()));
        assert(messages_view(messages@) =~= work_messages(
            agent@,
            task@,
            self@.kickoff,
            self@.deps,
            opt_view(brief),
        ));
        self.brief = brief;
        self.messages = messages;
        self.tool_calls = Vec::new();
        assert(calls_view(self.tool_calls@) =~= Seq::empty());
        self.task_usage = TokenUsage { prompt_tokens: 0, completion_tokens: 0, total_tokens: 0 };
        self.iteration = 0;
        self.agent_turn()
    }

    /// The task at `pos` begins, or the run ends past the last one.
    fn begin_task(&mut self) -> (a: KickoffAction)
        requires
            run_base(old(self)@),
        ensures
            (final(self)@, a@) == begin_task(old(self)@),
            run_wf(final(self)@),
            a@ matches KickoffActionView::Finished(e) ==> record_follows_order(old(self)@.crew, e)
                && record_usage_adds_up(e, final(self)@.manager_usage),
            distinct_ids(old(self)@.crew.tasks) ==> !is_missing_task(a@),
    {
        if self.pos >= self.order.len() {
            proof {
                lemma_order_in_range(self@.crew.tasks);
                let v = self@;
                assert forall|i: int| 0 <= i < v.outcomes.len() implies (#[trigger] v.outcomes[i]).task_id
                    == v.crew.tasks[v.order[i]].id && v.outcomes[i].agent_id == v.crew.tasks[v.order[i]].agent by {
                    assert(i < v.pos);
                }
            }
            return self.finish();
        }
        let crew = self.crew;
        proof {
            lemma_current_task_in_range(self@);
        }
        let task = &crew.tasks()[self.order[self.pos]];
        let ai = match crew.agent_index(task.agent()) {
            Some(i) => i,
            None => {
                self.phase = RunPhase::Done;
                return KickoffAction::Failed(CrewError::MissingAgent(owned(task.agent())));
            },
        };
        let agent = &crew.agents()[ai];
        match gather(&self.outcomes, task.depends_on()) {
            Err(d) => {
                proof {
                    if distinct_ids(self@.crew.tasks) {
                        lemma_dependencies_found(self@);
                    }
                }
                self.phase = RunPhase::Done;
                KickoffAction::Failed(CrewError::MissingTask(d))
            },
            Ok(deps) => {
                proof {
                    lemma_gather_ok(self@.outcomes, task@.depends_on);
                }
                let mut text = owned(agent.role());
                push_str(&mut text, " started ");
                push_str(&mut text, task.id());
                let started = TranscriptEvent {
                    kind: TranscriptEventKind::TaskStarted,
                    task_id: Some(owned(task.id())),
                    agent_id: Some(owned(agent.id())),
                    message: text,
                };
                let ghost before = events_view(self.transcript@);
                self.transcript.push(started);
                assert(events_view(self.transcript@) =~= before.push(started@));
                self.agent = ai;
                self.deps = deps;
                self.brief = None;
                match crew.process() {
                    Process::Hierarchical { manager } => {
                        let system = render_manager_system_prompt(manager);
                        let user = render_manager_prompt(task, self.deps.as_slice(), &self.kickoff);
                        let mut messages: Vec<ModelMessage> = Vec::new();
                        messages.push(ModelMessage::system(system.as_str()));
                        messages.push(ModelMessage::user(user.as_str()));
                        assert(messages_view(messages@) =~= manager_messages(
                            manager@,
                            task@,
                            self@.deps,
                            self@.kickoff,
                        ));
                        self.phase = RunPhase::Briefing;
                        KickoffAction::AskManager { messages, max_tokens: 300 }
                    },
                    Process::Sequential => self.start_work(None),
                }
            },
        }
    }

    /// The task under way is done with `output`; the next one begins.
    fn complete_task(&mut self, output: String) -> (a: KickoffAction)
        requires
            run_base(old(self)@),
            old(self)@.pos < old(self)@.order.len(),
            0 <= old(self)@.agent < old(self)@.crew.agents.len(),
            old(self)@.agent == agent_position(old(self)@.crew.agents, current_task(old(self)@).agent),
            usage_fits(old(self)@.usage, old(self)@.task_usage),
            old(self)@.brief is Some <==> old(self)@.crew.process is Hierarchical,
        ensures
            (final(self)@, a@) == complete_task(old(self)@, output@),
            run_wf(final(self)@),
            a@ matches KickoffActionView::Finished(e) ==> record_follows_order(old(self)@.crew, e)
                && record_usage_adds_up(e, final(self)@.manager_usage),
            distinct_ids(old(self)@.crew.tasks) ==> !is_missing_task(a@),
    {
        let crew = self.crew;
        proof {
            lemma_current_task_in_range(self@);
        }
        let n = self.order.len();
        assert(self.pos < n);
        let next = self.pos + 1;
        let task = &crew.tasks()[self.order[self.pos]];
        let agent = &crew.agents()[self.agent];
        let outcome = TaskOutcome {
            task_id: owned(task.id()),
            agent_id: owned(agent.id()),
            output,
            tool_calls: clone_calls(&self.tool_calls),
            manager_brief: clone_opt(&self.brief),
            usage: self.task_usage,
        };
        let task_usage = self.task_usage;
        self.usage.add_assign(task_usage);
        let mut text = owned(agent.id());
        push_str(&mut text, " completed ");
        push_str(&mut text, task.id());
        let completed = TranscriptEvent {
            kind: TranscriptEventKind::TaskCompleted,
            task_id: Some(owned(task.id())),
            agent_id: Some(owned(agent.id())),
            message: text,
        };
        let ghost before = events_view(self.transcript@);
        self.transcript.push(completed);
        assert(events_view(self.transcript@) =~= before.push(completed@));
        let ghost outs = outcomes_view(self.outcomes@);
        self.outcomes.push(outcome);
        assert(outcomes_view(self.outcomes@) =~= outs.push(outcome@));
        self.pos = next;
        proof {
            let v = self@;
            assert(v.outcomes.drop_last() =~= old(self)@.outcomes);
            assert forall|i: int| 0 <= i < v.pos implies (#[trigger] v.outcomes[i]).task_id
                == v.crew.tasks[v.order[i]].id && v.outcomes[i].agent_id == v.crew.tasks[v.order[i]].agent by {
                if i < v.pos - 1 {
                    assert(v.outcomes[i] == old(self)@.outcomes[i]);
                }
            }
        }
        self.begin_task()
    }

    /// The run ends.
    fn finish(&mut self) -> (a: KickoffAction)
        requires
            run_base(old(self)@),
        ensures
            (final(self)@, a@) == finish(old(self)@),
            run_wf(final(self)@),
    {
        self.phase = RunPhase::Done;
        let n = self.outcomes.len();
        if n == 0 {
            return KickoffAction::Failed(
                CrewError::InvalidConfig(owned("a crew must contain at least one task")),
            );
        }
        let execution = CrewExecution {
            crew_name: owned(self.crew.name()),
            kickoff: self.kickoff.duplicate(),
            final_output: self.outcomes[n - 1].output.clone(),
            tasks: clone_outcomes(&self.outcomes),
            transcript: clone_events(&self.transcript),
            usage: self.usage,
        };
        KickoffAction::Finished(execution)
    }
}

/// A run of a crew under way.
pub struct KickoffRun<'a> {
    state: RunState<'a>,
}

impl<'a> View for KickoffRun<'a> {
    type V = KickoffRunView;

    closed spec fn view(&self) -> KickoffRunView {
        self.state@
    }
}

impl<'a> KickoffRun<'a> {
    #[verifier::type_invariant]
    closed spec fn inv(self) -> bool {
        run_wf(self.state@)
    }

    /// Every run is well formed: the tasks done so far ran in order, each by
    /// its agent, and while a task is under way it was handed the outcomes of
    /// exactly its dependencies and its agent has a turn left when asked.
    pub fn well_formed(&self)
        ensures
            run_wf(self@),
    {
        proof {
            use_type_invariant(self);
        }
    }

    /// Where the run stands.
    pub fn phase(&self) -> (r: &RunPhase)
        ensures
            r@ == self@.phase,
    {
        &self.state.phase
    }

    /// The outcomes of the tasks done so far, in the order they were done.
    pub fn outcomes(&self) -> (r: &Vec<TaskOutcome>)
        ensures
            outcomes_view(r@) == self@.outcomes,
    {
        &self.state.outcomes
    }

    /// The transcript so far.
    pub fn transcript(&self) -> (r: &Vec<TranscriptEvent>)
        ensures
            events_view(r@) == self@.transcript,
    {
        &self.state.transcript
    }

    /// The usage of the run so far, without that of the task under way.
    pub fn usage(&self) -> (r: TokenUsage)
        ensures
            r == self@.usage,
    {
        self.state.usage
    }

    /// Whether handing over a manager's reply with this usage would overflow a
    /// usage counter.
    pub fn manager_reply_overflows(&self, usage: Option<TokenUsage>) -> (r: bool)
        ensures
            r == !manager_reply_fits(self@, usage),
    {
        self.state.usage.would_overflow(&usage_or_zero(usage))
    }

    /// Whether handing over an agent's reply with this text and usage would
    /// overflow a usage counter.
    pub fn agent_reply_overflows(&self, content: &str, usage: Option<TokenUsage>) -> (r: bool)
        ensures
            r == !agent_reply_fits(self@, content@, usage),
    {
        let reported = usage_or_zero(usage);
        if self.state.task_usage.would_overflow(&reported) {
            return true;
        }
        let mut sum = self.state.task_usage;
        sum.add_assign(reported);
        match extract_tag(content, "tool_call") {
            Some(_) => false,
            None => self.state.usage.would_overflow(&sum),
        }
    }

    /// Hands over the manager's reply.
    pub fn on_manager_reply(self, content: &str, usage: Option<TokenUsage>) -> (r: (KickoffRun<'a>, KickoffAction))
        requires
            self@.phase is Briefing,
            manager_reply_fits(self@, usage),
        ensures
            (r.0@, r.1@) == on_manager_reply(self@, content@, usage),
    {
        proof {
            use_type_invariant(&self);
        }
        let KickoffRun { mut state } = self;
        let brief = unwrap_final_answer(content);
        state.usage.add_assign(usage_or_zero(usage));
        state.manager_usage = Ghost(usage_sum(state.manager_usage@, reported_usage(usage)));
        let crew = state.crew;
        proof {
            lemma_current_task_in_range(state@);
        }
        let task = &crew.tasks()[state.order[state.pos]];
        let briefed = TranscriptEvent {
            kind: TranscriptEventKind::ManagerBriefed,
            task_id: Some(owned(task.id())),
            agent_id: None,
            message: brief.clone(),
        };
        let ghost before = events_view(state.transcript@);
        state.transcript.push(briefed);
        assert(events_view(state.transcript@) =~= before.push(briefed@));
        let action = state.start_work(Some(brief));
        (KickoffRun { state }, action)
    }

    /// Hands over the reply of the agent at work.
    pub fn on_agent_reply(self, content: &str, usage: Option<TokenUsage>) -> (r: (KickoffRun<'a>, KickoffAction))
        requires
            self@.phase is Working,
            agent_reply_fits(self@, content@, usage),
        ensures
            (r.0@, r.1@) == on_agent_reply(self@, content@, usage),
            r.1@ matches KickoffActionView::Finished(e) ==> record_follows_order(self@.crew, e)
                && record_usage_adds_up(e, r.0@.manager_usage),
            distinct_ids(self@.crew.tasks) ==> !is_missing_task(r.1@),
    {
        proof {
            use_type_invariant(&self);
        }
        let KickoffRun { mut state } = self;
        let crew = state.crew;
        let max = crew.agents()[state.agent].max_iterations();
        state.task_usage.add_assign(usage_or_zero(usage));
        let ghost before = messages_view(state.messages@);
        let reply = ModelMessage::assistant(content);
        state.messages.push(reply);
        assert(messages_view(state.messages@) =~= before.push(reply@));
        assert(state.iteration < max);
        state.iteration = state.iteration + 1;
        match extract_tag(content, "tool_call") {
            Some(raw) => {
                state.phase = RunPhase::Parsing;
                (KickoffRun { state }, KickoffAction::ParseDirective { raw })
            },
            None => {
                let output = unwrap_final_answer(content);
                let action = state.complete_task(output);
                (KickoffRun { state }, action)
            },
        }
    }

    /// Hands over the tool call that the agent's reply asked for, parsed.
    pub fn on_directive(self, tool: &str, input: &str) -> (r: (KickoffRun<'a>, KickoffAction))
        requires
            self@.phase is Parsing,
        ensures
            (r.0@, r.1@) == on_directive(self@, tool@, input@),
    {
        proof {
            use_type_invariant(&self);
        }
        let KickoffRun { mut state } = self;
        let crew = state.crew;
        proof {
            lemma_current_task_in_range(state@);
        }
        let task = &crew.tasks()[state.order[state.pos]];
        let agent = &crew.agents()[state.agent];
        match agent.find_tool(tool) {
            None => {
                state.phase = RunPhase::Done;
                (KickoffRun { state }, KickoffAction::Failed(CrewError::MissingTool(owned(tool))))
            },
            Some(i) => {
                state.phase = RunPhase::Calling { tool: owned(tool), input: owned(input) };
                let call = ToolInput::new(input, task.id(), agent.id());
                (
                    KickoffRun { state },
                    KickoffAction::CallTool { agent_id: owned(agent.id()), tool_index: i, input: call },
                )
            },
        }
    }

    /// Hands over the output of the tool that was called.
    pub fn on_tool_output(self, output: &str) -> (r: (KickoffRun<'a>, KickoffAction))
        requires
            self@.phase is Calling,
        ensures
            (r.0@, r.1@) == on_tool_output(self@, output@),
    {
        proof {
            use_type_invariant(&self);
        }
        let KickoffRun { mut state } = self;
        let (tool, input) = match &state.phase {
            RunPhase::Calling { tool, input } => (tool.clone(), input.clone()),
            _ => (String::new(), String::new()),
        };
        let crew = state.crew;
        proof {
            lemma_current_task_in_range(state@);
        }
        let task = &crew.tasks()[state.order[state.pos]];
        let agent = &crew.agents()[state.agent];
        let mut text = owned(agent.id());
        push_str(&mut text, " called ");
        push_str(&mut text, tool.as_str());
        let called = TranscriptEvent {
            kind: TranscriptEventKind::ToolCalled,
            task_id: Some(owned(task.id())),
            agent_id: Some(owned(agent.id())),
            message: text,
        };
        let ghost events = events_view(state.transcript@);
        state.transcript.push(called);
        assert(events_view(state.transcript@) =~= events.push(called@));
        let mut result = owned("Tool `");
        push_str(&mut result, tool.as_str());
        push_str(&mut result, "` returned the following result:\n");
        push_str(&mut result, output);
        let handed = ModelMessage::tool(result.as_str());
        let ghost msgs = messages_view(state.messages@);
        state.messages.push(handed);
        assert(messages_view(state.messages@) =~= msgs.push(handed@));
        let record = ToolCallRecord { tool, input, output: owned(output) };
        let ghost calls = calls_view(state.tool_calls@);
        state.tool_calls.push(record);
        assert(calls_view(state.tool_calls@) =~= calls.push(record@));
        let action = state.agent_turn();
        (KickoffRun { state }, action)
    }
}

impl Crew {
    /// Starts a run of the crew with the given input: the first task begins.
    pub fn start_kickoff<'a>(&'a self, input: KickoffInput) -> (r: (KickoffRun<'a>, KickoffAction))
        ensures
            (r.0@, r.1@) == kickoff_start(self@, input@),
            r.1@ matches KickoffActionView::Finished(e) ==> record_follows_order(self@, e)
                && record_usage_adds_up(e, r.0@.manager_usage),
            distinct_ids(self@.tasks) ==> !is_missing_task(r.1@),
    {
        self.well_formed();
        let order = match crate::schedule::topological_tasks(self.tasks()) {
            Ok(order) => order,
            Err(e) => {
                proof {
                    assert(false);
                }
                Vec::new()
            },
        };
        let mut state = RunState {
            crew: self,
            kickoff: input,
            order,
            pos: 0,
            outcomes: Vec::new(),
            transcript: Vec::new(),
            usage: TokenUsage { prompt_tokens: 0, completion_tokens: 0, total_tokens: 0 },
            manager_usage: Ghost(usage_zero()),
            agent: 0,
            deps: Vec::new(),
            brief: None,
            messages: Vec::new(),
            tool_calls: Vec::new(),
            task_usage: TokenUsage { prompt_tokens: 0, completion_tokens: 0, total_tokens: 0 },
            iteration: 0,
            phase: RunPhase::Done,
        };
        assert(state@ == initial_run(self@, input@)) by {
            assert(outcomes_view(state.outcomes@) =~= Seq::empty());
            assert(events_view(state.transcript@) =~= Seq::empty());
            assert(outcomes_view(state.deps@) =~= Seq::empty());
            assert(messages_view(state.messages@) =~= Seq::empty());
            assert(calls_view(state.tool_calls@) =~= Seq::empty());
        }
        let action = state.begin_task();
        (KickoffRun { state }, action)
    }
}

} // verus!
