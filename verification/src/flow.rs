//! Flows: named steps that run one after another, each naming the next step
//! or finishing the run. The library holds the graph and decides what runs
//! next; the steps themselves are run by the caller, which hands each step's
//! transition back.
use vstd::prelude::*;

use crate::error::{CrewError, CrewErrorView};
use crate::text::{
    decimal, decimal_string, insert_sorted, join, join_strings, owned, push_str, sanitize_id,
    sanitize_node_id, sorted_slot, strictly_sorted, strings_view,
};

verus! {

/// What a running step knows of its run.
#[derive(Debug, Clone)]
pub struct FlowContext {
    pub execution_id: String,
    pub step_index: usize,
}

/// What a step hands back: the step to run next, or the end of the run.
#[derive(Debug, Clone)]
pub enum FlowTransition {
    Next(String),
    Finish,
}

/// The outcome of a finished run: its id, the steps run in order, and the state.
#[derive(Debug, Clone)]
pub struct FlowRun<State> {
    pub execution_id: String,
    pub history: Vec<String>,
    pub state: State,
}

/// A validated flow graph.
#[derive(Debug)]
pub struct Flow {
    name: String,
    start: String,
    steps: Vec<String>,
    edges: Vec<(String, String)>,
    max_steps: usize,
}

/// The mathematical view of a [`Flow`]; `steps` are in the order of `String`.
pub struct FlowView {
    pub name: Seq<char>,
    pub start: Seq<char>,
    pub steps: Seq<Seq<char>>,
    pub edges: Seq<(Seq<char>, Seq<char>)>,
    pub max_steps: nat,
}

/// The views of a sequence of edges.
pub open spec fn edges_view(e: Seq<(String, String)>) -> Seq<(Seq<char>, Seq<char>)> {
    e.map_values(|p: (String, String)| (p.0@, p.1@))
}

impl View for Flow {
    type V = FlowView;

    closed spec fn view(&self) -> FlowView {
        FlowView {
            name: self.name@,
            start: self.start@,
            steps: strings_view(self.steps@),
            edges: edges_view(self.edges@),
            max_steps: self.max_steps as nat,
        }
    }
}

/// Collects the steps and edges of a flow before validating them.
#[derive(Debug)]
pub struct FlowBuilder {
    name: String,
    start: Option<String>,
    steps: Vec<String>,
    edges: Vec<(String, String)>,
    max_steps: usize,
}

/// The mathematical view of a [`FlowBuilder`].
pub struct FlowBuilderView {
    pub name: Seq<char>,
    pub start: Option<Seq<char>>,
    pub steps: Seq<Seq<char>>,
    pub edges: Seq<(Seq<char>, Seq<char>)>,
    pub max_steps: nat,
}

impl View for FlowBuilder {
    type V = FlowBuilderView;

    closed spec fn view(&self) -> FlowBuilderView {
        FlowBuilderView {
            name: self.name@,
            start: crate::text::opt_view(self.start),
            steps: strings_view(self.steps@),
            edges: edges_view(self.edges@),
            max_steps: self.max_steps as nat,
        }
    }
}

impl FlowBuilder {
    /// The builder's steps are kept in the order of `String`, each once.
    #[verifier::type_invariant]
    closed spec fn wf(self) -> bool {
        strictly_sorted(strings_view(self.steps@))
    }
}

impl Flow {
    /// The flow's steps are kept in the order of `String`, each once, and the
    /// start and every edge name registered steps.
    #[verifier::type_invariant]
    closed spec fn wf(self) -> bool {
        &&& strictly_sorted(strings_view(self.steps@))
        &&& strings_view(self.steps@).contains(self.start@)
        &&& forall|i: int| 0 <= i < self.edges@.len() ==> strings_view(self.steps@).contains(
            #[trigger] self.edges@[i].0@,
        ) && strings_view(self.steps@).contains(self.edges@[i].1@)
    }

    /// A builder for a flow with the given name, allowing 32 steps per run.
    pub fn builder(name: &str) -> (b: FlowBuilder)
        ensures
            b@ == (FlowBuilderView {
                name: name@,
                start: None,
                steps: Seq::empty(),
                edges: Seq::empty(),
                max_steps: 32,
            }),
    {
        let b = FlowBuilder {
            name: owned(name),
            start: None,
            steps: Vec::new(),
            edges: Vec::new(),
            max_steps: 32,
        };
        assert(strings_view(b.steps@) =~= Seq::empty());
        assert(edges_view(b.edges@) =~= Seq::empty());
        b
    }

    pub fn name(&self) -> (r: &str)
        ensures
            r@ == self@.name,
    {
        self.name.as_str()
    }

    pub fn max_steps(&self) -> (r: usize)
        ensures
            r == self@.max_steps,
    {
        self.max_steps
    }

    /// Whether a step of this name is registered.
    pub fn has_step(&self, step: &str) -> (r: bool)
        ensures
            r == self@.steps.contains(step@),
    {
        proof {
            use_type_invariant(self);
        }
        sorted_slot(&self.steps, step).1
    }
}

/// The first edge of `edges` whose source or target is not among `steps`, as
/// the error that names it.
pub open spec fn first_bad_edge(steps: Seq<Seq<char>>, edges: Seq<(Seq<char>, Seq<char>)>) -> Option<
    CrewErrorView,
>
    decreases edges.len(),
{
    if edges.len() == 0 {
        None
    } else if !steps.contains(edges[0].0) {
        Some(
            CrewErrorView::InvalidConfig(
                "flow edge source `"@ + edges[0].0 + "` is not registered"@,
            ),
        )
    } else if !steps.contains(edges[0].1) {
        Some(
            CrewErrorView::InvalidConfig(
                "flow edge target `"@ + edges[0].1 + "` is not registered"@,
            ),
        )
    } else {
        first_bad_edge(steps, edges.drop_first())
    }
}

/// What building a flow from `b` gives: an error for a missing start, a start
/// that is not registered, or the first edge that names an unregistered step;
/// otherwise the flow.
pub open spec fn flow_build_result(b: FlowBuilderView) -> Result<FlowView, CrewErrorView> {
    match b.start {
        None => Err(CrewErrorView::InvalidConfig("flow start step is required"@)),
        Some(start) => if !b.steps.contains(start) {
            Err(CrewErrorView::InvalidConfig("flow start step `"@ + start + "` is not registered"@))
        } else {
            match first_bad_edge(b.steps, b.edges) {
                Some(e) => Err(e),
                None => Ok(
                    FlowView {
                        name: b.name,
                        start,
                        steps: b.steps,
                        edges: b.edges,
                        max_steps: b.max_steps,
                    },
                ),
            }
        },
    }
}

/// The view of a result that holds a flow.
pub open spec fn flow_result_view(r: Result<Flow, CrewError>) -> Result<FlowView, CrewErrorView> {
    match r {
        Ok(f) => Ok(f@),
        Err(e) => Err(e@),
    }
}

proof fn lemma_first_bad_edge_none(steps: Seq<Seq<char>>, edges: Seq<(Seq<char>, Seq<char>)>)
    requires
        first_bad_edge(steps, edges) is None,
    ensures
        forall|i: int|
            0 <= i < edges.len() ==> steps.contains(#[trigger] edges[i].0) && steps.contains(
                edges[i].1,
            ),
    decreases edges.len(),
{
    if edges.len() > 0 {
        lemma_first_bad_edge_none(steps, edges.drop_first());
        assert forall|i: int| 0 <= i < edges.len() implies steps.contains(#[trigger] edges[i].0)
            && steps.contains(edges[i].1) by {
            if i > 0 {
                assert(edges.drop_first()[i - 1] == edges[i]);
            }
        }
    }
}

impl FlowBuilder {
    /// Sets the step that runs first.
    pub fn start(self, step: &str) -> (b: FlowBuilder)
        ensures
            b@ == (FlowBuilderView { start: Some(step@), ..self@ }),
    {
        proof {
            use_type_invariant(&self);
        }
        FlowBuilder { start: Some(owned(step)), ..self }
    }

    /// Registers a step name; registering a name twice keeps it once.
    pub fn step(self, name: &str) -> (b: FlowBuilder)
        ensures
            strictly_sorted(b@.steps),
            b@.steps.to_set() == self@.steps.to_set().insert(name@),
            b@ == (FlowBuilderView { steps: b@.steps, ..self@ }),
    {
        proof {
            use_type_invariant(&self);
        }
        let FlowBuilder { name: flow_name, start, mut steps, edges, max_steps } = self;
        insert_sorted(&mut steps, name);
        FlowBuilder { name: flow_name, start, steps, edges, max_steps }
    }

    /// Adds an edge, which only the diagram shows.
    pub fn edge(self, from: &str, to: &str) -> (b: FlowBuilder)
        ensures
            b@ == (FlowBuilderView { edges: self@.edges.push((from@, to@)), ..self@ }),
    {
        proof {
            use_type_invariant(&self);
        }
        let FlowBuilder { name, start, steps, mut edges, max_steps } = self;
        let ghost old_edges = edges@;
        edges.push((owned(from), owned(to)));
        assert(edges_view(edges@) =~= edges_view(old_edges).push((from@, to@)));
        FlowBuilder { name, start, steps, edges, max_steps }
    }

    /// Sets the number of steps a run may take.
    pub fn max_steps(self, max_steps: usize) -> (b: FlowBuilder)
        ensures
            b@ == (FlowBuilderView { max_steps: max_steps as nat, ..self@ }),
    {
        proof {
            use_type_invariant(&self);
        }
        FlowBuilder { max_steps, ..self }
    }

    /// Validates the start and the edges and builds the flow.
    pub fn build(self) -> (r: Result<Flow, CrewError>)
        ensures
            flow_result_view(r) == flow_build_result(self@),
    {
        proof {
            use_type_invariant(&self);
        }
        let ghost sv = strings_view(self.steps@);
        let ghost bv = self@;
        let start = match self.start {
            Some(s) => s,
            None => {
                return Err(CrewError::InvalidConfig(owned("flow start step is required")));
            },
        };
        if !sorted_slot(&self.steps, start.as_str()).1 {
            let mut m = owned("flow start step `");
            push_str(&mut m, start.as_str());
            push_str(&mut m, "` is not registered");
            return Err(CrewError::InvalidConfig(m));
        }
        let ghost ev = edges_view(self.edges@);
        let mut i: usize = 0;
        assert(ev.skip(0) =~= ev);
        while i < self.edges.len()
            invariant
                i <= self.edges@.len(),
                ev == edges_view(self.edges@),
                sv == strings_view(self.steps@),
                strictly_sorted(sv),
                first_bad_edge(sv, ev) == first_bad_edge(sv, ev.skip(i as int)),
                bv == self@,
                bv.start == Some(start@),
                bv.steps == sv,
                bv.edges == ev,
                sv.contains(start@),
            decreases self.edges.len() - i,
        {
            let from = &self.edges[i].0;
            let to = &self.edges[i].1;
            let ghost rest = ev.skip(i as int);
            assert(rest.len() > 0);
            assert(rest[0] == (from@, to@));
            if !sorted_slot(&self.steps, from.as_str()).1 {
                let mut m = owned("flow edge source `");
                push_str(&mut m, from.as_str());
                push_str(&mut m, "` is not registered");
                return Err(CrewError::InvalidConfig(m));
            }
            if !sorted_slot(&self.steps, to.as_str()).1 {
                let mut m = owned("flow edge target `");
                push_str(&mut m, to.as_str());
                push_str(&mut m, "` is not registered");
                return Err(CrewError::InvalidConfig(m));
            }
            assert(rest.drop_first() =~= ev.skip(i + 1));
            i = i + 1;
        }
        assert(ev.skip(i as int) =~= Seq::<(Seq<char>, Seq<char>)>::empty());
        proof {
            lemma_first_bad_edge_none(sv, ev);
            assert forall|k: int| 0 <= k < self.edges@.len() implies sv.contains(
                #[trigger] self.edges@[k].0@,
            ) && sv.contains(self.edges@[k].1@) by {
                assert(ev[k] == (self.edges@[k].0@, self.edges@[k].1@));
                assert(sv.contains(ev[k].0) && sv.contains(ev[k].1));
            }
        }
        Ok(
            Flow {
                name: self.name,
                start,
                steps: self.steps,
                edges: self.edges,
                max_steps: self.max_steps,
            },
        )
    }
}

/// A step name made safe as a diagram node id: every character that is not
/// an ASCII letter or digit becomes `_`.
pub fn sanitize_step_id(id: &str) -> (r: String)
    ensures
        r@ == sanitize_id(id@),
{
    sanitize_node_id(id)
}

/// The diagram line of a step.
pub open spec fn step_line(step: Seq<char>) -> Seq<char> {
    "  "@ + sanitize_id(step) + "(["@ + step + "])"@
}

/// The diagram line of an edge.
pub open spec fn edge_line(edge: (Seq<char>, Seq<char>)) -> Seq<char> {
    "  "@ + sanitize_id(edge.0) + " --> "@ + sanitize_id(edge.1)
}

/// The flow as a Mermaid diagram: a header, a node per step in the order of
/// `String`, and a line per edge in the order added.
pub open spec fn flow_mermaid(f: FlowView) -> Seq<char> {
    join(
        seq!["flowchart LR"@] + f.steps.map_values(|s: Seq<char>| step_line(s)) + f.edges.map_values(
            |e: (Seq<char>, Seq<char>)| edge_line(e),
        ),
        "\n"@,
    )
}

impl Flow {
    /// The flow as a Mermaid diagram.
    pub fn mermaid(&self) -> (r: String)
        ensures
            r@ == flow_mermaid(self@),
    {
        let ghost sv = strings_view(self.steps@);
        let ghost ev = edges_view(self.edges@);
        let mut lines: Vec<String> = Vec::new();
        lines.push(owned("flowchart LR"));
        let ghost head = seq!["flowchart LR"@];
        let mut i: usize = 0;
        while i < self.steps.len()
            invariant
                i <= self.steps@.len(),
                sv == strings_view(self.steps@),
                strings_view(lines@) == head + sv.take(i as int).map_values(
                    |s: Seq<char>| step_line(s),
                ),
            decreases self.steps.len() - i,
        {
            let step = self.steps[i].as_str();
            let mut line = owned("  ");
            let id = sanitize_step_id(step);
            push_str(&mut line, id.as_str());
            push_str(&mut line, "([");
            push_str(&mut line, step);
            push_str(&mut line, "])");
            let ghost before = strings_view(lines@);
            lines.push(line);
            assert(strings_view(lines@) =~= before.push(line@));
            assert(sv.take(i + 1).map_values(|s: Seq<char>| step_line(s)) =~= sv.take(
                i as int,
            ).map_values(|s: Seq<char>| step_line(s)).push(step_line(sv[i as int])));
            i = i + 1;
        }
        assert(sv.take(sv.len() as int) =~= sv);
        let ghost mid = strings_view(lines@);
        let mut j: usize = 0;
        while j < self.edges.len()
            invariant
                j <= self.edges@.len(),
                ev == edges_view(self.edges@),
                strings_view(lines@) == mid + ev.take(j as int).map_values(
                    |e: (Seq<char>, Seq<char>)| edge_line(e),
                ),
            decreases self.edges.len() - j,
        {
            let from = self.edges[j].0.as_str();
            let to = self.edges[j].1.as_str();
            assert(ev[j as int] == (from@, to@));
            let mut line = owned("  ");
            let a = sanitize_step_id(from);
            let b = sanitize_step_id(to);
            push_str(&mut line, a.as_str());
            push_str(&mut line, " --> ");
            push_str(&mut line, b.as_str());
            let ghost before = strings_view(lines@);
            lines.push(line);
            assert(strings_view(lines@) =~= before.push(line@));
            assert(ev.take(j + 1).map_values(|e: (Seq<char>, Seq<char>)| edge_line(e)) =~= ev.take(
                j as int,
            ).map_values(|e: (Seq<char>, Seq<char>)| edge_line(e)).push(edge_line(ev[j as int])));
            j = j + 1;
        }
        assert(ev.take(ev.len() as int) =~= ev);
        assert(strings_view(lines@) =~= seq!["flowchart LR"@] + sv.map_values(
            |s: Seq<char>| step_line(s),
        ) + ev.map_values(|e: (Seq<char>, Seq<char>)| edge_line(e)));
        assert(lines@.map_values(|t: String| t@) == strings_view(lines@));
        join_strings(&lines, "\n")
    }
}

/// `s` is a version-4 UUID of the RFC 4122 variant, written as lowercase
/// hexadecimal in groups of 8, 4, 4, 4 and 12 digits separated by hyphens.
pub open spec fn is_uuid_v4_text(s: Seq<char>) -> bool {
    &&& s.len() == 36
    &&& forall|i: int|
        0 <= i < 36 ==> if i == 8 || i == 13 || i == 18 || i == 23 {
            #[trigger] s[i] == '-'
        } else {
            ('0' <= s[i] && s[i] <= '9') || ('a' <= s[i] && s[i] <= 'f')
        }
    &&& s[14] == '4'
    &&& (s[19] == '8' || s[19] == '9' || s[19] == 'a' || s[19] == 'b')
}

/// A fresh run id: `uuid::Uuid::new_v4()` formatted with `to_string`. The
/// contract states the shape of the text, which holds of every random value.
#[verifier::external_body]
fn new_execution_id() -> (id: String)
    ensures
        is_uuid_v4_text(id@),
{
    uuid::Uuid::new_v4().to_string()
}

/// The mathematical view of a [`FlowTransition`].
pub enum FlowTransitionView {
    Next(Seq<char>),
    Finish,
}

impl View for FlowTransition {
    type V = FlowTransitionView;

    open spec fn view(&self) -> FlowTransitionView {
        match self {
            FlowTransition::Next(s) => FlowTransitionView::Next(s@),
            FlowTransition::Finish => FlowTransitionView::Finish,
        }
    }
}

/// What the caller does next in a run of a flow.
#[derive(Debug)]
pub enum FlowAction {
    /// Run the named step with this context and hand its transition back.
    RunStep { step: String, context: FlowContext },
    /// The run is over.
    Finished { execution_id: String, history: Vec<String> },
    /// The run failed.
    Failed(CrewError),
}

/// The mathematical view of a [`FlowAction`].
pub enum FlowActionView {
    RunStep { step: Seq<char>, execution_id: Seq<char>, step_index: nat },
    Finished { execution_id: Seq<char>, history: Seq<Seq<char>> },
    Failed(CrewErrorView),
}

impl View for FlowAction {
    type V = FlowActionView;

    open spec fn view(&self) -> FlowActionView {
        match self {
            FlowAction::RunStep { step, context } => FlowActionView::RunStep {
                step: step@,
                execution_id: context.execution_id@,
                step_index: context.step_index as nat,
            },
            FlowAction::Finished { execution_id, history } => FlowActionView::Finished {
                execution_id: execution_id@,
                history: strings_view(history@),
            },
            FlowAction::Failed(e) => FlowActionView::Failed(e@),
        }
    }
}

/// The state of a run: its id, the step to run next, the steps run so far and
/// the number of steps run before the next one.
pub struct FlowRunner {
    execution_id: String,
    current: String,
    history: Vec<String>,
    step_index: usize,
}

/// The mathematical view of a [`FlowRunner`].
pub struct FlowRunnerView {
    pub execution_id: Seq<char>,
    pub current: Seq<char>,
    pub history: Seq<Seq<char>>,
    pub step_index: nat,
}

impl View for FlowRunner {
    type V = FlowRunnerView;

    closed spec fn view(&self) -> FlowRunnerView {
        FlowRunnerView {
            execution_id: self.execution_id@,
            current: self.current@,
            history: strings_view(self.history@),
            step_index: self.step_index as nat,
        }
    }
}

/// The error of a run that reached its step limit.
pub open spec fn exceeded_message(f: FlowView) -> Seq<char> {
    "flow `"@ + f.name + "` exceeded max step count of "@ + decimal(f.max_steps)
}

/// Decides the next action for a runner about to run its current step: fail
/// when the step limit is reached or the step is not registered; otherwise
/// record the step and run it.
pub open spec fn flow_dispatch(f: FlowView, r: FlowRunnerView) -> (FlowRunnerView, FlowActionView) {
    if r.step_index >= f.max_steps {
        (r, FlowActionView::Failed(CrewErrorView::InvalidConfig(exceeded_message(f))))
    } else if !f.steps.contains(r.current) {
        (
            r,
            FlowActionView::Failed(
                CrewErrorView::InvalidConfig("flow step `"@ + r.current + "` was not registered"@),
            ),
        )
    } else {
        (
            FlowRunnerView { history: r.history.push(r.current), ..r },
            FlowActionView::RunStep {
                step: r.current,
                execution_id: r.execution_id,
                step_index: r.step_index,
            },
        )
    }
}

/// The runner of a new run with the given id.
pub open spec fn flow_start(f: FlowView, execution_id: Seq<char>) -> FlowRunnerView {
    FlowRunnerView { execution_id, current: f.start, history: Seq::empty(), step_index: 0 }
}

/// What a step's transition leads to: the end of the run, or the named step.
pub open spec fn flow_resume(f: FlowView, r: FlowRunnerView, t: FlowTransitionView) -> (
    FlowRunnerView,
    FlowActionView,
) {
    match t {
        FlowTransitionView::Finish => (
            r,
            FlowActionView::Finished { execution_id: r.execution_id, history: r.history },
        ),
        FlowTransitionView::Next(next) => flow_dispatch(
            f,
            FlowRunnerView { current: next, step_index: r.step_index + 1, ..r },
        ),
    }
}

impl FlowRunner {
    /// The runner waits for the transition of the step it just handed out: the
    /// step is the last of the history, and the run is within its limit.
    pub open spec fn awaiting(self, f: FlowView) -> bool {
        &&& self@.step_index < f.max_steps
        &&& self@.history.len() == self@.step_index + 1
    }
}

impl Flow {
    /// Begins a run under a fresh random id.
    pub fn start_run(&self) -> (r: (FlowRunner, FlowAction))
        ensures
            is_uuid_v4_text(r.0@.execution_id),
            (r.0@, r.1@) == flow_dispatch(self@, flow_start(self@, r.0@.execution_id)),
            r.1@ is RunStep ==> r.0.awaiting(self@),
    {
        let id = new_execution_id();
        self.start_run_with_id(id)
    }

    /// Begins a run under the given id: the first action runs the start step,
    /// or fails where the flow allows no step at all.
    pub fn start_run_with_id(&self, execution_id: String) -> (r: (FlowRunner, FlowAction))
        ensures
            (r.0@, r.1@) == flow_dispatch(self@, flow_start(self@, execution_id@)),
            r.1@ is RunStep ==> r.0.awaiting(self@),
    {
        let mut runner = FlowRunner {
            execution_id,
            current: self.start.clone(),
            history: Vec::new(),
            step_index: 0,
        };
        assert(strings_view(runner.history@) =~= Seq::empty());
        let action = runner.dispatch(self);
        (runner, action)
    }
}

impl FlowRunner {
    fn dispatch(&mut self, flow: &Flow) -> (a: FlowAction)
        requires
            old(self)@.history.len() == old(self)@.step_index,
        ensures
            (final(self)@, a@) == flow_dispatch(flow@, old(self)@),
            a@ is RunStep ==> final(self).awaiting(flow@),
    {
        if self.step_index >= flow.max_steps {
            let mut m = owned("flow `");
            push_str(&mut m, flow.name.as_str());
            push_str(&mut m, "` exceeded max step count of ");
            let n = decimal_string(flow.max_steps);
            push_str(&mut m, n.as_str());
            return FlowAction::Failed(CrewError::InvalidConfig(m));
        }
        if !flow.has_step(self.current.as_str()) {
            let mut m = owned("flow step `");
            push_str(&mut m, self.current.as_str());
            push_str(&mut m, "` was not registered");
            return FlowAction::Failed(CrewError::InvalidConfig(m));
        }
        let ghost before = strings_view(self.history@);
        self.history.push(self.current.clone());
        assert(strings_view(self.history@) =~= before.push(self.current@));
        FlowAction::RunStep {
            step: self.current.clone(),
            context: FlowContext {
                execution_id: self.execution_id.clone(),
                step_index: self.step_index,
            },
        }
    }

    /// Hands back the transition of the step last handed out and gives the
    /// next action.
    pub fn resume(&mut self, flow: &Flow, transition: FlowTransition) -> (a: FlowAction)
        requires
            old(self).awaiting(flow@),
        ensures
            (final(self)@, a@) == flow_resume(flow@, old(self)@, transition@),
            a@ is RunStep ==> final(self).awaiting(flow@),
    {
        match transition {
            FlowTransition::Finish => FlowAction::Finished {
                execution_id: self.execution_id.clone(),
                history: crate::text::clone_strings(&self.history),
            },
            FlowTransition::Next(next) => {
                self.current = next;
                self.step_index = self.step_index + 1;
                self.dispatch(flow)
            },
        }
    }

    /// The id of the run.
    pub fn execution_id(&self) -> (r: &str)
        ensures
            r@ == self@.execution_id,
    {
        self.execution_id.as_str()
    }

    /// The steps run so far.
    pub fn history(&self) -> (r: &Vec<String>)
        ensures
            strings_view(r@) == self@.history,
    {
        &self.history
    }
}

/// A run never goes past its step limit: after the transition of a step that
/// was handed out, the run either hands out a step that is still within the
/// limit, or finishes with a history of at most the limit's length, or fails.
pub proof fn law_flow_step_limit(flow: FlowView, runner: FlowRunner, transition: FlowTransitionView)
    requires
        runner.awaiting(flow),
    ensures
        flow_resume(flow, runner@, transition).1 matches FlowActionView::Finished { history, .. }
            ==> 1 <= history.len() <= flow.max_steps,
        flow_resume(flow, runner@, transition).1 matches FlowActionView::RunStep { step_index, .. }
            ==> step_index < flow.max_steps && flow_resume(flow, runner@, transition).0.history.len()
            == step_index + 1,
{
}

/// A run keeps the id it was started with: the first step it hands out, every
/// later step, and the record of the finished run all carry that id.
pub proof fn law_flow_run_keeps_id(
    flow: FlowView,
    execution_id: Seq<char>,
    runner: FlowRunner,
    transition: FlowTransitionView,
)
    ensures
        flow_dispatch(flow, flow_start(flow, execution_id)).0.execution_id == execution_id,
        flow_dispatch(flow, flow_start(flow, execution_id)).1 matches FlowActionView::RunStep {
            execution_id: id,
            ..
        } ==> id == execution_id,
        flow_resume(flow, runner@, transition).0.execution_id == runner@.execution_id,
        flow_resume(flow, runner@, transition).1 matches FlowActionView::RunStep { execution_id: id, .. }
            ==> id == runner@.execution_id,
        flow_resume(flow, runner@, transition).1 matches FlowActionView::Finished { execution_id: id, .. }
            ==> id == runner@.execution_id,
{
}

} // verus!
