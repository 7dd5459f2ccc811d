//! Crews: agents and the tasks they carry out, run in dependency order, either
//! one after another or under a manager who briefs each task.
use vstd::prelude::*;

use crate::agent::{agents_view, Agent, AgentView};
use crate::error::{CrewError, CrewErrorView};
use crate::model::TokenUsage;
use crate::schedule::{
    ordering_panics, topological_result, topological_tasks, total_deps, order_result_view,
};
use crate::task::{tasks_view, Task, TaskView};
use crate::text::{
    concat_all, insert_pair, is_blank, join, join_strings, keyed_insert, lemma_keyed_insert_at,
    lemma_lex_irreflexive, lemma_lex_transitive, lex_lt, opt_view, owned, pair_keys, pairs_sorted, pairs_view, push_str,
    sanitize_id, sanitize_node_id, sorted_slot, str_is_blank, strictly_sorted, strings_view,
};
use crate::tool::{calls_view, ToolCallRecord, ToolCallRecordView};

verus! {

/// How a crew runs its tasks.
#[derive(Debug, Clone)]
pub enum Process {
    /// One task after another.
    Sequential,
    /// One task after another, each briefed first by the manager.
    Hierarchical { manager: Agent },
}

impl Default for Process {
    fn default() -> (r: Process)
        ensures
            r is Sequential,
    {
        Process::Sequential
    }
}

/// The mathematical view of a [`Process`].
pub enum ProcessView {
    Sequential,
    Hierarchical { manager: AgentView },
}

impl View for Process {
    type V = ProcessView;

    open spec fn view(&self) -> ProcessView {
        match self {
            Process::Sequential => ProcessView::Sequential,
            Process::Hierarchical { manager } => ProcessView::Hierarchical { manager: manager@ },
        }
    }
}

/// What a crew is started with: the goal, and context kept in key order.
#[derive(Debug)]
pub struct KickoffInput {
    goal: String,
    context: Vec<(String, String)>,
}

/// The mathematical view of a [`KickoffInput`].
pub struct KickoffInputView {
    pub goal: Seq<char>,
    pub context: Seq<(Seq<char>, Seq<char>)>,
}

impl View for KickoffInput {
    type V = KickoffInputView;

    closed spec fn view(&self) -> KickoffInputView {
        KickoffInputView { goal: self.goal@, context: pairs_view(self.context@) }
    }
}

impl KickoffInput {
    /// The context keys are in the order of `String`, each once.
    #[verifier::type_invariant]
    closed spec fn sorted(self) -> bool {
        pairs_sorted(pairs_view(self.context@))
    }

    pub fn new(goal: &str) -> (r: KickoffInput)
        ensures
            r@ == (KickoffInputView { goal: goal@, context: Seq::empty() }),
    {
        let r = KickoffInput { goal: owned(goal), context: Vec::new() };
        assert(pairs_view(r.context@) =~= Seq::empty());
        assert(pairs_view(r.context@).map_values(|p: (Seq<char>, Seq<char>)| p.0) =~= Seq::empty());
        r
    }

    /// Adds a context entry, replacing any entry with the same key.
    pub fn with_context(self, key: &str, value: &str) -> (r: KickoffInput)
        ensures
            r@ == (KickoffInputView {
                context: keyed_insert(self@.context, |p: (Seq<char>, Seq<char>)| p.0, (key@, value@)),
                ..self@
            }),
    {
        proof {
            use_type_invariant(&self);
        }
        let KickoffInput { goal, mut context } = self;
        insert_pair(&mut context, key, value);
        KickoffInput { goal, context }
    }

    pub fn goal(&self) -> (r: &str)
        ensures
            r@ == self@.goal,
    {
        self.goal.as_str()
    }

    pub fn context(&self) -> (r: &Vec<(String, String)>)
        ensures
            pairs_view(r@) == self@.context,
    {
        &self.context
    }

    /// A duplicate of this input.
    pub fn duplicate(&self) -> (r: KickoffInput)
        ensures
            r@ == self@,
    {
        proof {
            use_type_invariant(self);
        }
        let mut context: Vec<(String, String)> = Vec::new();
        let mut i: usize = 0;
        while i < self.context.len()
            invariant
                i <= self.context@.len(),
                context@.len() == i,
                forall|k: int|
                    0 <= k < i ==> (#[trigger] context@[k]).0@ == self.context@[k].0@ && context@[k].1@
                        == self.context@[k].1@,
            decreases self.context.len() - i,
        {
            context.push((self.context[i].0.clone(), self.context[i].1.clone()));
            i = i + 1;
        }
        assert(pairs_view(context@) =~= pairs_view(self.context@));
        KickoffInput { goal: self.goal.clone(), context }
    }
}

/// What one task produced.
#[derive(Debug, Clone)]
pub struct TaskOutcome {
    pub task_id: String,
    pub agent_id: String,
    pub output: String,
    pub tool_calls: Vec<ToolCallRecord>,
    pub manager_brief: Option<String>,
    pub usage: TokenUsage,
}

/// The mathematical view of a [`TaskOutcome`].
pub struct TaskOutcomeView {
    pub task_id: Seq<char>,
    pub agent_id: Seq<char>,
    pub output: Seq<char>,
    pub tool_calls: Seq<ToolCallRecordView>,
    pub manager_brief: Option<Seq<char>>,
    pub usage: TokenUsage,
}

impl View for TaskOutcome {
    type V = TaskOutcomeView;

    open spec fn view(&self) -> TaskOutcomeView {
        TaskOutcomeView {
            task_id: self.task_id@,
            agent_id: self.agent_id@,
            output: self.output@,
            tool_calls: calls_view(self.tool_calls@),
            manager_brief: opt_view(self.manager_brief),
            usage: self.usage,
        }
    }
}

/// The views of a sequence of outcomes.
pub open spec fn outcomes_view(v: Seq<TaskOutcome>) -> Seq<TaskOutcomeView> {
    v.map_values(|o: TaskOutcome| o@)
}

impl TaskOutcome {
    /// A duplicate of this outcome.
    pub fn duplicate(&self) -> (r: TaskOutcome)
        ensures
            r@ == self@,
    {
        TaskOutcome {
            task_id: self.task_id.clone(),
            agent_id: self.agent_id.clone(),
            output: self.output.clone(),
            tool_calls: crate::tool::clone_calls(&self.tool_calls),
            manager_brief: crate::text::clone_opt(&self.manager_brief),
            usage: self.usage,
        }
    }
}

/// The kind of an event of a run's transcript.
#[derive(Debug, Clone, Copy, PartialEq, Eq, Structural)]
pub enum TranscriptEventKind {
    TaskStarted,
    ManagerBriefed,
    ToolCalled,
    TaskCompleted,
}

/// One event of a run's transcript.
#[derive(Debug, Clone)]
pub struct TranscriptEvent {
    pub kind: TranscriptEventKind,
    pub task_id: Option<String>,
    pub agent_id: Option<String>,
    pub message: String,
}

/// The mathematical view of a [`TranscriptEvent`].
pub struct TranscriptEventView {
    pub kind: TranscriptEventKind,
    pub task_id: Option<Seq<char>>,
    pub agent_id: Option<Seq<char>>,
    pub message: Seq<char>,
}

impl View for TranscriptEvent {
    type V = TranscriptEventView;

    open spec fn view(&self) -> TranscriptEventView {
        TranscriptEventView {
            kind: self.kind,
            task_id: opt_view(self.task_id),
            agent_id: opt_view(self.agent_id),
            message: self.message@,
        }
    }
}

/// The views of a sequence of events.
pub open spec fn events_view(v: Seq<TranscriptEvent>) -> Seq<TranscriptEventView> {
    v.map_values(|e: TranscriptEvent| e@)
}

impl TranscriptEvent {
    /// A duplicate of this event.
    pub fn duplicate(&self) -> (r: TranscriptEvent)
        ensures
            r@ == self@,
    {
        TranscriptEvent {
            kind: self.kind,
            task_id: crate::text::clone_opt(&self.task_id),
            agent_id: crate::text::clone_opt(&self.agent_id),
            message: self.message.clone(),
        }
    }
}

/// A duplicate of a list of events.
pub fn clone_events(v: &Vec<TranscriptEvent>) -> (r: Vec<TranscriptEvent>)
    ensures
        events_view(r@) == events_view(v@),
{
    let mut r: Vec<TranscriptEvent> = Vec::new();
    let mut i: usize = 0;
    while i < v.len()
        invariant
            i <= v.len(),
            r@.len() == i,
            forall|k: int| 0 <= k < i ==> #[trigger] r@[k]@ == v@[k]@,
        decreases v.len() - i,
    {
        r.push(v[i].duplicate());
        i = i + 1;
    }
    assert(events_view(r@) =~= events_view(v@));
    r
}

/// A duplicate of a list of outcomes.
pub fn clone_outcomes(v: &Vec<TaskOutcome>) -> (r: Vec<TaskOutcome>)
    ensures
        outcomes_view(r@) == outcomes_view(v@),
{
    let mut r: Vec<TaskOutcome> = Vec::new();
    let mut i: usize = 0;
    while i < v.len()
        invariant
            i <= v.len(),
            r@.len() == i,
            forall|k: int| 0 <= k < i ==> #[trigger] r@[k]@ == v@[k]@,
        decreases v.len() - i,
    {
        r.push(v[i].duplicate());
        i = i + 1;
    }
    assert(outcomes_view(r@) =~= outcomes_view(v@));
    r
}

/// The record of a finished run of a crew.
#[derive(Debug)]
pub struct CrewExecution {
    pub crew_name: String,
    pub kickoff: KickoffInput,
    pub final_output: String,
    pub tasks: Vec<TaskOutcome>,
    pub transcript: Vec<TranscriptEvent>,
    pub usage: TokenUsage,
}

/// The mathematical view of a [`CrewExecution`].
pub struct CrewExecutionView {
    pub crew_name: Seq<char>,
    pub kickoff: KickoffInputView,
    pub final_output: Seq<char>,
    pub tasks: Seq<TaskOutcomeView>,
    pub transcript: Seq<TranscriptEventView>,
    pub usage: TokenUsage,
}

impl View for CrewExecution {
    type V = CrewExecutionView;

    open spec fn view(&self) -> CrewExecutionView {
        CrewExecutionView {
            crew_name: self.crew_name@,
            kickoff: self.kickoff@,
            final_output: self.final_output@,
            tasks: outcomes_view(self.tasks@),
            transcript: events_view(self.transcript@),
            usage: self.usage,
        }
    }
}

/// The Markdown of one tool call.
pub open spec fn call_markdown(c: ToolCallRecordView) -> Seq<char> {
    "- `"@ + c.tool + "` input: `"@ + c.input + "`\n- output: "@ + c.output + "\n"@
}

/// The Markdown of one task's outcome.
pub open spec fn outcome_markdown(o: TaskOutcomeView) -> Seq<char> {
    let head = "### "@ + o.task_id + " ("@ + o.agent_id + ")\n\n"@ + o.output + "\n\n"@;
    if o.tool_calls.len() == 0 {
        head
    } else {
        head + "Tool calls:\n"@ + concat_all(o.tool_calls.map_values(|c: ToolCallRecordView| call_markdown(c)))
            + "\n"@
    }
}

/// The run as Markdown: the crew's name, its goal, the final output, and each
/// task's outcome with the tools it called.
pub open spec fn execution_markdown(e: CrewExecutionView) -> Seq<char> {
    "# "@ + e.crew_name + "\n\n"@ + "## Goal\n\n"@ + e.kickoff.goal + "\n\n## Final Output\n\n"@
        + e.final_output + "\n\n## Tasks\n\n"@ + concat_all(
        e.tasks.map_values(|o: TaskOutcomeView| outcome_markdown(o)),
    )
}

proof fn lemma_concat_push(s: Seq<Seq<char>>, x: Seq<char>)
    ensures
        concat_all(s.push(x)) == concat_all(s) + x,
{
    assert(s.push(x).drop_last() =~= s);
}

/// The Markdown of one task's outcome.
fn outcome_markdown_string(task: &TaskOutcome) -> (r: String)
    ensures
        r@ == outcome_markdown(task@),
{
    let mut out = owned("### ");
    push_str(&mut out, task.task_id.as_str());
    push_str(&mut out, " (");
    push_str(&mut out, task.agent_id.as_str());
    push_str(&mut out, ")\n\n");
    push_str(&mut out, task.output.as_str());
    push_str(&mut out, "\n\n");
    if task.tool_calls.len() > 0 {
        push_str(&mut out, "Tool calls:\n");
        let ghost mid = out@;
        let ghost cv = calls_view(task.tool_calls@);
        let mut j: usize = 0;
        while j < task.tool_calls.len()
            invariant
                j <= task.tool_calls@.len(),
                cv == calls_view(task.tool_calls@),
                out@ == mid + concat_all(
                    cv.take(j as int).map_values(|c: ToolCallRecordView| call_markdown(c)),
                ),
            decreases task.tool_calls.len() - j,
        {
            let call = &task.tool_calls[j];
            push_str(&mut out, "- `");
            push_str(&mut out, call.tool.as_str());
            push_str(&mut out, "` input: `");
            push_str(&mut out, call.input.as_str());
            push_str(&mut out, "`\n- output: ");
            push_str(&mut out, call.output.as_str());
            push_str(&mut out, "\n");
            proof {
                let f = |c: ToolCallRecordView| call_markdown(c);
                assert(cv.take(j + 1).map_values(f) =~= cv.take(j as int).map_values(f).push(
                    f(cv[j as int]),
                ));
                lemma_concat_push(cv.take(j as int).map_values(f), f(cv[j as int]));
            }
            j = j + 1;
        }
        assert(cv.take(cv.len() as int) =~= cv);
        push_str(&mut out, "\n");
    }
    out
}

impl CrewExecution {
    /// The run as Markdown.
    pub fn to_markdown(&self) -> (r: String)
        ensures
            r@ == execution_markdown(self@),
    {
        let mut out = owned("# ");
        push_str(&mut out, self.crew_name.as_str());
        push_str(&mut out, "\n\n");
        push_str(&mut out, "## Goal\n\n");
        push_str(&mut out, self.kickoff.goal());
        push_str(&mut out, "\n\n## Final Output\n\n");
        push_str(&mut out, self.final_output.as_str());
        push_str(&mut out, "\n\n## Tasks\n\n");
        let ghost head = out@;
        let ghost ov = outcomes_view(self.tasks@);
        let mut i: usize = 0;
        while i < self.tasks.len()
            invariant
                i <= self.tasks@.len(),
                ov == outcomes_view(self.tasks@),
                out@ == head + concat_all(
                    ov.take(i as int).map_values(|o: TaskOutcomeView| outcome_markdown(o)),
                ),
            decreases self.tasks.len() - i,
        {
            let part = outcome_markdown_string(&self.tasks[i]);
            push_str(&mut out, part.as_str());
            proof {
                let f = |o: TaskOutcomeView| outcome_markdown(o);
                assert(ov.take(i + 1).map_values(f) =~= ov.take(i as int).map_values(f).push(
                    f(ov[i as int]),
                ));
                lemma_concat_push(ov.take(i as int).map_values(f), f(ov[i as int]));
            }
            i = i + 1;
        }
        assert(ov.take(ov.len() as int) =~= ov);
        out
    }
}

/// The agent `id` is among `agents`.
pub open spec fn has_agent(agents: Seq<AgentView>, id: Seq<char>) -> bool {
    exists|i: int| 0 <= i < agents.len() && agents[i].id == id
}

/// The agent of the first task whose agent is not among `agents`.
pub open spec fn first_unknown_agent(tasks: Seq<TaskView>, agents: Seq<AgentView>) -> Option<Seq<char>>
    decreases tasks.len(),
{
    if tasks.len() == 0 {
        None
    } else if !has_agent(agents, tasks[0].agent) {
        Some(tasks[0].agent)
    } else {
        first_unknown_agent(tasks.drop_first(), agents)
    }
}

/// The index of the agent whose id is `id`, or -1 where there is none.
pub open spec fn agent_position(agents: Seq<AgentView>, id: Seq<char>) -> int {
    if has_agent(agents, id) {
        choose|i: int| 0 <= i < agents.len() && agents[i].id == id
    } else {
        -1
    }
}

/// The ids of the agents are in the order of `String`, each once.
pub open spec fn agents_sorted(agents: Seq<AgentView>) -> bool {
    strictly_sorted(agents.map_values(|a: AgentView| a.id))
}

/// A validated crew.
#[derive(Debug)]
pub struct Crew {
    name: String,
    agent_ids: Vec<String>,
    agents: Vec<Agent>,
    tasks: Vec<Task>,
    process: Process,
}

/// The mathematical view of a [`Crew`]: agents in the order of their ids.
pub struct CrewView {
    pub name: Seq<char>,
    pub agents: Seq<AgentView>,
    pub tasks: Seq<TaskView>,
    pub process: ProcessView,
}

/// What every crew satisfies: a name that is not blank, at least one task,
/// agents keyed by distinct ids, every task's agent among them, and tasks that
/// can be ordered.
pub open spec fn crew_wf(c: CrewView) -> bool {
    &&& !is_blank(c.name)
    &&& c.tasks.len() > 0
    &&& agents_sorted(c.agents)
    &&& forall|t: int| 0 <= t < c.tasks.len() ==> has_agent(c.agents, #[trigger] c.tasks[t].agent)
    &&& total_deps(c.tasks) <= usize::MAX
    &&& !ordering_panics(c.tasks)
    &&& topological_result(c.tasks) is Ok
}

impl View for Crew {
    type V = CrewView;

    closed spec fn view(&self) -> CrewView {
        CrewView {
            name: self.name@,
            agents: agents_view(self.agents@),
            tasks: tasks_view(self.tasks@),
            process: self.process@,
        }
    }
}

/// The ids are aligned with the agents.
pub open spec fn ids_match(ids: Seq<String>, agents: Seq<Agent>) -> bool {
    &&& ids.len() == agents.len()
    &&& forall|i: int| 0 <= i < ids.len() ==> (#[trigger] ids[i])@ == agents[i]@.id
}

impl Crew {
    #[verifier::type_invariant]
    closed spec fn inv(self) -> bool {
        &&& ids_match(self.agent_ids@, self.agents@)
        &&& crew_wf(self@)
    }

    /// A builder for a crew with the given name, running its tasks sequentially.
    pub fn builder(name: &str) -> (b: CrewBuilder)
        ensures
            b@ == (CrewView {
                name: name@,
                agents: Seq::empty(),
                tasks: Seq::empty(),
                process: ProcessView::Sequential,
            }),
    {
        let b = CrewBuilder {
            name: owned(name),
            agent_ids: Vec::new(),
            agents: Vec::new(),
            tasks: Vec::new(),
            process: Process::Sequential,
        };
        assert(agents_view(b.agents@) =~= Seq::empty());
        assert(tasks_view(b.tasks@) =~= Seq::empty());
        assert(strings_view(b.agent_ids@) =~= Seq::empty());
        b
    }

    pub fn name(&self) -> (r: &str)
        ensures
            r@ == self@.name,
    {
        self.name.as_str()
    }

    /// The agents, in the order of their ids.
    pub fn agents(&self) -> (r: &Vec<Agent>)
        ensures
            agents_view(r@) == self@.agents,
    {
        &self.agents
    }

    pub fn tasks(&self) -> (r: &Vec<Task>)
        ensures
            tasks_view(r@) == self@.tasks,
    {
        &self.tasks
    }

    pub fn process(&self) -> (r: &Process)
        ensures
            r@ == self@.process,
    {
        &self.process
    }

    /// Every crew is well formed.
    pub fn well_formed(&self)
        ensures
            crew_wf(self@),
    {
        proof {
            use_type_invariant(self);
        }
    }

    /// The index of the agent with the given id.
    pub fn agent_index(&self, id: &str) -> (r: Option<usize>)
        ensures
            r matches Some(i) ==> i < self@.agents.len() && self@.agents[i as int].id == id@ && i
                == agent_position(self@.agents, id@),
            r is None <==> !has_agent(self@.agents, id@),
            r is None <==> agent_position(self@.agents, id@) == -1,
    {
        proof {
            use_type_invariant(self);
            assert(strings_view(self.agent_ids@) =~= self@.agents.map_values(|a: AgentView| a.id));
        }
        let (p, found) = sorted_slot(&self.agent_ids, id);
        if found {
            assert(self.agent_ids@[p as int]@ == self.agents@[p as int]@.id);
            proof {
                let av = self@.agents;
                assert(has_agent(av, id@));
                let c = choose|i: int| 0 <= i < av.len() && av[i].id == id@;
                if c != p as int {
                    lemma_lex_irreflexive(id@);
                    let ks = av.map_values(|a: AgentView| a.id);
                    if c < p as int {
                        assert(lex_lt(ks[c], ks[p as int]));
                    } else {
                        assert(lex_lt(ks[p as int], ks[c]));
                    }
                }
            }
            Some(p)
        } else {
            assert(!has_agent(self@.agents, id@)) by {
                if has_agent(self@.agents, id@) {
                    let i = choose|i: int| 0 <= i < self@.agents.len() && self@.agents[i].id == id@;
                    assert(strings_view(self.agent_ids@)[i] == id@);
                }
            }
            None
        }
    }
}

/// The diagram line of a task's node: its id and its agent.
pub open spec fn task_node_line(t: TaskView) -> Seq<char> {
    "  "@ + sanitize_id(t.id) + "[\""@ + t.id + "\\n"@ + t.agent + "\"]"@
}

/// The diagram lines of the edges into a task: from the kickoff where it has
/// no dependencies, else from each dependency.
pub open spec fn task_edge_lines(t: TaskView) -> Seq<Seq<char>> {
    if t.depends_on.len() == 0 {
        seq!["  kickoff --> "@ + sanitize_id(t.id)]
    } else {
        t.depends_on.map_values(|d: Seq<char>| "  "@ + sanitize_id(d) + " --> "@ + sanitize_id(t.id))
    }
}

/// The edge lines of all tasks, task by task.
pub open spec fn crew_edge_lines(tasks: Seq<TaskView>) -> Seq<Seq<char>>
    decreases tasks.len(),
{
    if tasks.len() == 0 {
        Seq::empty()
    } else {
        crew_edge_lines(tasks.drop_last()) + task_edge_lines(tasks.last())
    }
}

/// The crew as a Mermaid diagram: a kickoff node, a node per task, and the
/// edges of the dependencies.
pub open spec fn crew_mermaid(c: CrewView) -> Seq<char> {
    join(
        seq!["flowchart TD"@, "  kickoff([Kickoff])"@] + c.tasks.map_values(|t: TaskView| task_node_line(t))
            + crew_edge_lines(c.tasks),
        "\n"@,
    )
}

/// The diagram line of the edge from dependency `d` to task `id`.
pub open spec fn dependency_edge(d: Seq<char>, id: Seq<char>) -> Seq<char> {
    "  "@ + sanitize_id(d) + " --> "@ + sanitize_id(id)
}

/// The diagram line of the edge from the kickoff to task `id`.
pub open spec fn kickoff_edge(id: Seq<char>) -> Seq<char> {
    "  kickoff --> "@ + sanitize_id(id)
}

/// The number of edges into the tasks: one from the kickoff for a task with
/// no dependencies, else one per dependency.
pub open spec fn edge_count(tasks: Seq<TaskView>) -> nat
    decreases tasks.len(),
{
    if tasks.len() == 0 {
        0
    } else {
        edge_count(tasks.drop_last()) + if tasks.last().depends_on.len() == 0 {
            1
        } else {
            tasks.last().depends_on.len()
        }
    }
}

/// `line` is an edge into task `t` of `tasks`.
pub open spec fn is_edge_of(tasks: Seq<TaskView>, line: Seq<char>) -> bool {
    exists|t: int|
        0 <= t < tasks.len() && ((tasks[t].depends_on.len() == 0 && line == kickoff_edge(tasks[t].id))
            || exists|k: int|
            0 <= k < tasks[t].depends_on.len() && line == dependency_edge(tasks[t].depends_on[k], tasks[t].id))
}

proof fn lemma_edge_lines(tasks: Seq<TaskView>)
    ensures
        crew_edge_lines(tasks).len() == edge_count(tasks),
        forall|t: int, k: int|
            0 <= t < tasks.len() && 0 <= k < tasks[t].depends_on.len() ==> crew_edge_lines(tasks).contains(
                #[trigger] dependency_edge(tasks[t].depends_on[k], tasks[t].id),
            ),
        forall|t: int|
            0 <= t < tasks.len() && tasks[t].depends_on.len() == 0 ==> crew_edge_lines(tasks).contains(
                #[trigger] kickoff_edge(tasks[t].id),
            ),
        forall|i: int| 0 <= i < crew_edge_lines(tasks).len() ==> is_edge_of(tasks, #[trigger] crew_edge_lines(tasks)[i]),
    decreases tasks.len(),
{
    if tasks.len() > 0 {
        let init = tasks.drop_last();
        let n = tasks.len() - 1;
        let last = tasks.last();
        lemma_edge_lines(init);
        let a = crew_edge_lines(init);
        let b = task_edge_lines(last);
        let e = crew_edge_lines(tasks);
        assert(e == a + b);
        assert(tasks[n] == last);
        if last.depends_on.len() == 0 {
            assert(b.len() == 1);
        } else {
            assert(b.len() == last.depends_on.len());
        }
        assert forall|t: int, k: int|
            0 <= t < tasks.len() && 0 <= k < tasks[t].depends_on.len() implies e.contains(
                #[trigger] dependency_edge(tasks[t].depends_on[k], tasks[t].id),
            ) by {
            if t < n {
                assert(init[t] == tasks[t]);
                let line = dependency_edge(init[t].depends_on[k], init[t].id);
                assert(a.contains(line));
                let i = choose|i: int| 0 <= i < a.len() && a[i] == line;
                assert(e[i] == line);
            } else {
                assert(b[k] == dependency_edge(last.depends_on[k], last.id));
                assert(e[a.len() + k] == b[k]);
            }
        }
        assert forall|t: int|
            0 <= t < tasks.len() && tasks[t].depends_on.len() == 0 implies e.contains(
                #[trigger] kickoff_edge(tasks[t].id),
            ) by {
            if t < n {
                assert(init[t] == tasks[t]);
                assert(a.contains(kickoff_edge(init[t].id)));
                let i = choose|i: int| 0 <= i < a.len() && a[i] == kickoff_edge(init[t].id);
                assert(e[i] == a[i]);
            } else {
                assert(b[0] == kickoff_edge(last.id));
                assert(e[a.len() as int] == b[0]);
            }
        }
        assert forall|i: int| 0 <= i < e.len() implies is_edge_of(tasks, #[trigger] e[i]) by {
            if i < a.len() {
                assert(e[i] == a[i]);
                assert(is_edge_of(init, a[i]));
                let t = choose|t: int|
                    0 <= t < init.len() && ((init[t].depends_on.len() == 0 && a[i] == kickoff_edge(init[t].id))
                        || exists|k: int|
                        0 <= k < init[t].depends_on.len() && a[i] == dependency_edge(init[t].depends_on[k], init[t].id));
                assert(init[t] == tasks[t]);
            } else {
                let k = i - a.len();
                assert(e[i] == b[k]);
                if last.depends_on.len() == 0 {
                    assert(b[k] == kickoff_edge(last.id));
                } else {
                    assert(b[k] == dependency_edge(last.depends_on[k], last.id));
                }
                assert(tasks[n] == last);
            }
        }
    }
}

/// The Mermaid diagram of a crew joins, line by line, a header, a node per
/// task and its edges; among the edges there is one from each dependency of
/// each task to the task, and one from the kickoff to each task without
/// dependencies, and nothing else: one per dependency, one per task without.
pub proof fn law_crew_mermaid_edges(c: CrewView)
    ensures
        crew_mermaid(c) == join(
            seq!["flowchart TD"@, "  kickoff([Kickoff])"@] + c.tasks.map_values(|t: TaskView| task_node_line(t))
                + crew_edge_lines(c.tasks),
            "\n"@,
        ),
        crew_edge_lines(c.tasks).len() == edge_count(c.tasks),
        forall|t: int, k: int|
            0 <= t < c.tasks.len() && 0 <= k < c.tasks[t].depends_on.len() ==> crew_edge_lines(c.tasks).contains(
                #[trigger] dependency_edge(c.tasks[t].depends_on[k], c.tasks[t].id),
            ),
        forall|t: int|
            0 <= t < c.tasks.len() && c.tasks[t].depends_on.len() == 0 ==> crew_edge_lines(c.tasks).contains(
                #[trigger] kickoff_edge(c.tasks[t].id),
            ),
        forall|i: int|
            0 <= i < crew_edge_lines(c.tasks).len() ==> is_edge_of(c.tasks, #[trigger] crew_edge_lines(c.tasks)[i]),
{
    lemma_edge_lines(c.tasks);
}

impl Crew {
    /// The crew as a Mermaid diagram.
    pub fn mermaid(&self) -> (r: String)
        ensures
            r@ == crew_mermaid(self@),
    {
        let ghost tv = tasks_view(self.tasks@);
        let mut lines: Vec<String> = Vec::new();
        lines.push(owned("flowchart TD"));
        lines.push(owned("  kickoff([Kickoff])"));
        let ghost head = seq!["flowchart TD"@, "  kickoff([Kickoff])"@];
        assert(strings_view(lines@) =~= head);
        let mut i: usize = 0;
        while i < self.tasks.len()
            invariant
                i <= self.tasks@.len(),
                tv == tasks_view(self.tasks@),
                strings_view(lines@) == head + tv.take(i as int).map_values(
                    |t: TaskView| task_node_line(t),
                ),
            decreases self.tasks.len() - i,
        {
            let task = &self.tasks[i];
            let mut line = owned("  ");
            let node = sanitize_node_id(task.id());
            push_str(&mut line, node.as_str());
            push_str(&mut line, "[\"");
            push_str(&mut line, task.id());
            push_str(&mut line, "\\n");
            push_str(&mut line, task.agent());
            push_str(&mut line, "\"]");
            let ghost before = strings_view(lines@);
            lines.push(line);
            assert(strings_view(lines@) =~= before.push(line@));
            assert(tv.take(i + 1).map_values(|t: TaskView| task_node_line(t)) =~= tv.take(
                i as int,
            ).map_values(|t: TaskView| task_node_line(t)).push(task_node_line(tv[i as int])));
            i = i + 1;
        }
        assert(tv.take(tv.len() as int) =~= tv);
        let ghost mid = strings_view(lines@);
        let mut j: usize = 0;
        assert(crew_edge_lines(tv.take(0)) =~= Seq::<Seq<char>>::empty());
        while j < self.tasks.len()
            invariant
                j <= self.tasks@.len(),
                tv == tasks_view(self.tasks@),
                strings_view(lines@) == mid + crew_edge_lines(tv.take(j as int)),
            decreases self.tasks.len() - j,
        {
            let task = &self.tasks[j];
            let target = sanitize_node_id(task.id());
            let deps = task.depends_on();
            let ghost before = strings_view(lines@);
            let ghost t = tv[j as int];
            if deps.len() == 0 {
                let mut line = owned("  kickoff --> ");
                push_str(&mut line, target.as_str());
                lines.push(line);
                assert(strings_view(lines@) =~= before + task_edge_lines(t));
            } else {
                let ghost f = |d: Seq<char>| "  "@ + sanitize_id(d) + " --> "@ + sanitize_id(t.id);
                let mut k: usize = 0;
                while k < deps.len()
                    invariant
                        k <= deps@.len(),
                        strings_view(deps@) == t.depends_on,
                        target@ == sanitize_id(t.id),
                        f == (|d: Seq<char>| "  "@ + sanitize_id(d) + " --> "@ + sanitize_id(t.id)),
                        strings_view(lines@) == before + t.depends_on.take(k as int).map_values(f),
                    decreases deps.len() - k,
                {
                    let mut line = owned("  ");
                    let from = sanitize_node_id(deps[k].as_str());
                    push_str(&mut line, from.as_str());
                    push_str(&mut line, " --> ");
                    push_str(&mut line, target.as_str());
                    let ghost b2 = strings_view(lines@);
                    lines.push(line);
                    assert(strings_view(lines@) =~= b2.push(line@));
                    assert(t.depends_on.take(k + 1).map_values(f) =~= t.depends_on.take(k as int).map_values(
                        f,
                    ).push(f(t.depends_on[k as int])));
                    k = k + 1;
                }
                assert(t.depends_on.take(deps@.len() as int) =~= t.depends_on);
            }
            assert(tv.take(j + 1).drop_last() =~= tv.take(j as int));
            assert(strings_view(lines@) =~= mid + crew_edge_lines(tv.take(j + 1)));
            j = j + 1;
        }
        join_strings(&lines, "\n")
    }
}

/// Collects the agents, tasks and process of a crew before validating them.
#[derive(Debug)]
pub struct CrewBuilder {
    name: String,
    agent_ids: Vec<String>,
    agents: Vec<Agent>,
    tasks: Vec<Task>,
    process: Process,
}

impl View for CrewBuilder {
    type V = CrewView;

    closed spec fn view(&self) -> CrewView {
        CrewView {
            name: self.name@,
            agents: agents_view(self.agents@),
            tasks: tasks_view(self.tasks@),
            process: self.process@,
        }
    }
}

/// Building gets as far as ordering the tasks.
pub open spec fn build_reaches_ordering(b: CrewView) -> bool {
    &&& !is_blank(b.name)
    &&& b.tasks.len() > 0
    &&& first_unknown_agent(b.tasks, b.agents) is None
}

/// What building a crew from `b` gives: an error for a blank name, for no
/// tasks, for the first task whose agent is missing, or from ordering the
/// tasks; otherwise the crew.
pub open spec fn crew_build_result(b: CrewView) -> Result<CrewView, CrewErrorView> {
    if is_blank(b.name) {
        Err(CrewErrorView::InvalidConfig("crew name cannot be empty"@))
    } else if b.tasks.len() == 0 {
        Err(CrewErrorView::InvalidConfig("a crew must contain at least one task"@))
    } else {
        match first_unknown_agent(b.tasks, b.agents) {
            Some(a) => Err(CrewErrorView::MissingAgent(a)),
            None => match topological_result(b.tasks) {
                Err(e) => Err(e),
                Ok(_) => Ok(b),
            },
        }
    }
}

/// The view of a result that holds a crew.
pub open spec fn crew_result_view(r: Result<Crew, CrewError>) -> Result<CrewView, CrewErrorView> {
    match r {
        Ok(c) => Ok(c@),
        Err(e) => Err(e@),
    }
}

proof fn lemma_first_unknown_agent_none(tasks: Seq<TaskView>, agents: Seq<AgentView>)
    requires
        first_unknown_agent(tasks, agents) is None,
    ensures
        forall|t: int| 0 <= t < tasks.len() ==> has_agent(agents, #[trigger] tasks[t].agent),
    decreases tasks.len(),
{
    if tasks.len() > 0 {
        lemma_first_unknown_agent_none(tasks.drop_first(), agents);
        assert forall|t: int| 0 <= t < tasks.len() implies has_agent(agents, #[trigger] tasks[t].agent) by {
            if t > 0 {
                assert(tasks.drop_first()[t - 1] == tasks[t]);
            }
        }
    }
}

impl CrewBuilder {
    #[verifier::type_invariant]
    closed spec fn inv(self) -> bool {
        &&& ids_match(self.agent_ids@, self.agents@)
        &&& strictly_sorted(strings_view(self.agent_ids@))
    }

    /// Adds an agent, replacing any agent with the same id.
    pub fn agent(self, agent: Agent) -> (b: CrewBuilder)
        ensures
            b@ == (CrewView {
                agents: keyed_insert(self@.agents, |a: AgentView| a.id, agent@),
                ..self@
            }),
    {
        proof {
            use_type_invariant(&self);
        }
        let CrewBuilder { name, mut agent_ids, mut agents, tasks, process } = self;
        let ghost av = agents_view(agents@);
        let ghost ks = strings_view(agent_ids@);
        let ghost kf = |a: AgentView| a.id;
        let ghost x = agent@;
        let (p, found) = sorted_slot(&agent_ids, agent.id());
        proof {
            assert forall|i: int| 0 <= i < p implies lex_lt(#[trigger] kf(av[i]), kf(x)) by {
                assert(ks[i] == kf(av[i]));
            }
            assert forall|i: int| p <= i < av.len() && !found implies lex_lt(kf(x), #[trigger] kf(av[i])) by {
                assert(ks[i] == kf(av[i]));
            }
            if found {
                assert(ks[p as int] == kf(av[p as int]));
            }
            lemma_keyed_insert_at(av, kf, x, p as int, found);
        }
        if found {
            agents.set(p, agent);
            assert(agents_view(agents@) =~= av.update(p as int, x));
            assert(ids_match(agent_ids@, agents@));
        } else {
            let id = owned(agent.id());
            agents.insert(p, agent);
            agent_ids.insert(p, id);
            assert(agents_view(agents@) =~= av.insert(p as int, x));
            assert(strings_view(agent_ids@) =~= ks.insert(p as int, x.id));
            assert(ids_match(agent_ids@, agents@)) by {
                assert forall|i: int| 0 <= i < agent_ids@.len() implies (#[trigger] agent_ids@[i])@
                    == agents@[i]@.id by {
                    if i < p {
                        assert(agent_ids@[i]@ == ks[i]);
                    } else if i > p {
                        assert(agent_ids@[i]@ == ks[i - 1]);
                    }
                }
            }
            let ghost nks = strings_view(agent_ids@);
            assert forall|i: int, j: int| 0 <= i < j < nks.len() implies lex_lt(
                #[trigger] nks[i],
                #[trigger] nks[j],
            ) by {
                if j < p {
                    assert(nks[i] == ks[i] && nks[j] == ks[j]);
                } else if j == p {
                    assert(nks[i] == ks[i]);
                } else if i < p {
                    assert(nks[i] == ks[i] && nks[j] == ks[j - 1]);
                    lemma_lex_transitive(ks[i], x.id, ks[j - 1]);
                } else if i == p {
                    assert(nks[j] == ks[j - 1]);
                } else {
                    assert(nks[i] == ks[i - 1] && nks[j] == ks[j - 1]);
                }
            }
        }
        CrewBuilder { name, agent_ids, agents, tasks, process }
    }

    /// Adds a task after those added before.
    pub fn task(self, task: Task) -> (b: CrewBuilder)
        ensures
            b@ == (CrewView { tasks: self@.tasks.push(task@), ..self@ }),
    {
        proof {
            use_type_invariant(&self);
        }
        let CrewBuilder { name, agent_ids, agents, mut tasks, process } = self;
        let ghost before = tasks_view(tasks@);
        tasks.push(task);
        assert(tasks_view(tasks@) =~= before.push(task@));
        CrewBuilder { name, agent_ids, agents, tasks, process }
    }

    /// Sets how the crew runs its tasks.
    pub fn process(self, process: Process) -> (b: CrewBuilder)
        ensures
            b@ == (CrewView { process: process@, ..self@ }),
    {
        proof {
            use_type_invariant(&self);
        }
        let CrewBuilder { name, agent_ids, agents, tasks, process: _ } = self;
        CrewBuilder { name, agent_ids, agents, tasks, process }
    }

    /// Whether building would panic while ordering the tasks.
    pub fn would_panic(&self) -> (r: bool)
        requires
            total_deps(self@.tasks) <= usize::MAX,
        ensures
            r == (build_reaches_ordering(self@) && ordering_panics(self@.tasks)),
    {
        if str_is_blank(self.name.as_str()) || self.tasks.len() == 0 {
            return false;
        }
        proof {
            use_type_invariant(self);
        }
        if self.first_unknown_agent_index().is_some() {
            return false;
        }
        crate::schedule::ordering_would_panic(&self.tasks)
    }

    /// The index of the first task whose agent is missing.
    fn first_unknown_agent_index(&self) -> (r: Option<usize>)
        requires
            ids_match(self.agent_ids@, self.agents@),
            strictly_sorted(strings_view(self.agent_ids@)),
        ensures
            r matches Some(t) ==> t < self.tasks@.len() && first_unknown_agent(self@.tasks, self@.agents)
                == Some(self@.tasks[t as int].agent),
            r is None <==> first_unknown_agent(self@.tasks, self@.agents) is None,
    {
        let ghost tv = tasks_view(self.tasks@);
        let ghost av = agents_view(self.agents@);
        let mut t: usize = 0;
        assert(tv.skip(0) =~= tv);
        while t < self.tasks.len()
            invariant
                t <= self.tasks@.len(),
                tv == tasks_view(self.tasks@),
                av == agents_view(self.agents@),
                ids_match(self.agent_ids@, self.agents@),
                strictly_sorted(strings_view(self.agent_ids@)),
                first_unknown_agent(tv, av) == first_unknown_agent(tv.skip(t as int), av),
            decreases self.tasks.len() - t,
        {
            let agent = self.tasks[t].agent();
            let ghost rest = tv.skip(t as int);
            assert(rest[0] == tv[t as int]);
            let (_, found) = sorted_slot(&self.agent_ids, agent);
            proof {
                if found {
                    let i = choose|i: int| 0 <= i < self.agent_ids@.len() && strings_view(self.agent_ids@)[i] == agent@;
                    assert(av[i].id == agent@);
                } else {
                    if has_agent(av, agent@) {
                        let i = choose|i: int| 0 <= i < av.len() && av[i].id == agent@;
                        assert(strings_view(self.agent_ids@)[i] == agent@);
                    }
                }
            }
            if !found {
                return Some(t);
            }
            assert(rest.drop_first() =~= tv.skip(t + 1));
            t = t + 1;
        }
        assert(tv.skip(t as int).len() == 0);
        None
    }

    /// Validates the crew and builds it.
    pub fn build(self) -> (r: Result<Crew, CrewError>)
        requires
            total_deps(self@.tasks) <= usize::MAX,
            build_reaches_ordering(self@) ==> !ordering_panics(self@.tasks),
        ensures
            crew_result_view(r) == crew_build_result(self@),
    {
        proof {
            use_type_invariant(&self);
        }
        if str_is_blank(self.name.as_str()) {
            return Err(CrewError::InvalidConfig(owned("crew name cannot be empty")));
        }
        if self.tasks.len() == 0 {
            return Err(CrewError::InvalidConfig(owned("a crew must contain at least one task")));
        }
        match self.first_unknown_agent_index() {
            Some(t) => {
                return Err(CrewError::MissingAgent(owned(self.tasks[t].agent())));
            },
            None => {},
        }
        proof {
            lemma_first_unknown_agent_none(self@.tasks, self@.agents);
        }
        match topological_tasks(&self.tasks) {
            Err(e) => Err(e),
            Ok(_) => {
                let CrewBuilder { name, agent_ids, agents, tasks, process } = self;
                let ghost ks = strings_view(agent_ids@);
                let ghost av = agents_view(agents@);
                assert(agents_sorted(av)) by {
                    assert(ks =~= av.map_values(|a: AgentView| a.id));
                }
                Ok(Crew { name, agent_ids, agents, tasks, process })
            },
        }
    }
}

} // verus!
