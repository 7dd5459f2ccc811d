//! Crews described as plain data, built against a registry that names the
//! models and tools they may use.
use vstd::prelude::*;

use crate::agent::{agent_build_result, agent_result_view, Agent, AgentBuilderView, AgentView};
use crate::crew::{crew_build_result, crew_result_view, Crew, CrewBuilder, CrewView, Process, ProcessView, build_reaches_ordering};
use crate::error::{CrewError, CrewErrorView};
use crate::schedule::{ordering_panics, total_deps};
use crate::task::{task_build_result, task_result_view, OutputFormat, Task, TaskBuilderView, TaskView};
use crate::text::{clone_strings, is_blank, keyed_insert, opt_view, owned, str_equal, strings_view};
use crate::tool::{FnTool, FnToolView};

verus! {

/// The models and tools that blueprints may name.
pub struct RuntimeRegistry {
    models: Vec<String>,
    tools: Vec<(String, FnTool)>,
}

/// The mathematical view of a [`RuntimeRegistry`]: the names of its models,
/// and its tools by name.
pub struct RuntimeRegistryView {
    pub models: Set<Seq<char>>,
    pub tools: Map<Seq<char>, FnToolView>,
}

/// The names of a list of models.
pub open spec fn model_names(models: Seq<String>) -> Set<Seq<char>> {
    Set::new(|k: Seq<char>| exists|i: int| 0 <= i < models.len() && models[i]@ == k)
}

/// The position of the entry named `k`.
pub open spec fn entry_index(tools: Seq<(String, FnTool)>, k: Seq<char>) -> int {
    choose|i: int| 0 <= i < tools.len() && tools[i].0@ == k
}

/// The tools of a list of entries, by name.
pub open spec fn tool_map(tools: Seq<(String, FnTool)>) -> Map<Seq<char>, FnToolView> {
    Map::new(
        |k: Seq<char>| exists|i: int| 0 <= i < tools.len() && tools[i].0@ == k,
        |k: Seq<char>| tools[entry_index(tools, k)].1@,
    )
}

impl View for RuntimeRegistry {
    type V = RuntimeRegistryView;

    closed spec fn view(&self) -> RuntimeRegistryView {
        RuntimeRegistryView { models: model_names(self.models@), tools: tool_map(self.tools@) }
    }
}

/// No name occurs twice.
pub open spec fn unique_models(models: Seq<String>) -> bool {
    forall|i: int, j: int| 0 <= i < j < models.len() ==> models[i]@ != models[j]@
}

/// No entry's name occurs twice.
pub open spec fn unique_tools(tools: Seq<(String, FnTool)>) -> bool {
    forall|i: int, j: int| 0 <= i < j < tools.len() ==> tools[i].0@ != tools[j].0@
}

/// A tool registered under a name is what resolving that name then gives,
/// and the other names resolve as before.
pub proof fn law_register_then_resolve(
    before: RuntimeRegistryView,
    after: RuntimeRegistryView,
    name: Seq<char>,
    tool: FnToolView,
)
    requires
        after.tools == before.tools.insert(name, tool),
    ensures
        after.tools.contains_key(name),
        after.tools[name] == tool,
        forall|other: Seq<char>|
            other != name ==> (#[trigger] after.tools.contains_key(other) == before.tools.contains_key(other)
                && (before.tools.contains_key(other) ==> after.tools[other] == before.tools[other])),
{
}

/// The position of the model named `name`.
fn model_slot(models: &Vec<String>, name: &str) -> (r: Option<usize>)
    ensures
        r matches Some(i) ==> i < models@.len() && models@[i as int]@ == name@,
        r is None ==> !model_names(models@).contains(name@),
{
    let mut i: usize = 0;
    while i < models.len()
        invariant
            i <= models@.len(),
            forall|k: int| 0 <= k < i ==> models@[k]@ != name@,
        decreases models.len() - i,
    {
        if str_equal(models[i].as_str(), name) {
            return Some(i);
        }
        i = i + 1;
    }
    None
}

/// The position of the tool named `name`.
fn tool_slot(tools: &Vec<(String, FnTool)>, name: &str) -> (r: Option<usize>)
    ensures
        r matches Some(i) ==> i < tools@.len() && tools@[i as int].0@ == name@,
        r is None ==> !tool_map(tools@).contains_key(name@),
{
    let mut i: usize = 0;
    while i < tools.len()
        invariant
            i <= tools@.len(),
            forall|k: int| 0 <= k < i ==> tools@[k].0@ != name@,
        decreases tools.len() - i,
    {
        if str_equal(tools[i].0.as_str(), name) {
            return Some(i);
        }
        i = i + 1;
    }
    None
}

proof fn lemma_entry_index(tools: Seq<(String, FnTool)>, i: int)
    requires
        unique_tools(tools),
        0 <= i < tools.len(),
    ensures
        entry_index(tools, tools[i].0@) == i,
{
    let c = entry_index(tools, tools[i].0@);
    assert(0 <= c < tools.len() && tools[c].0@ == tools[i].0@);
    if c < i {
        assert(tools[c].0@ != tools[i].0@);
    } else if i < c {
        assert(tools[i].0@ != tools[c].0@);
    }
}

impl RuntimeRegistry {
    #[verifier::type_invariant]
    closed spec fn inv(self) -> bool {
        &&& unique_models(self.models@)
        &&& unique_tools(self.tools@)
    }

    /// An empty registry.
    pub fn new() -> (r: RuntimeRegistry)
        ensures
            r@.models == Set::<Seq<char>>::empty(),
            r@.tools == Map::<Seq<char>, FnToolView>::empty(),
    {
        let r = RuntimeRegistry { models: Vec::new(), tools: Vec::new() };
        assert(model_names(r.models@) =~= Set::empty());
        assert(tool_map(r.tools@) =~= Map::empty());
        r
    }

    /// Registers a tool under `name`, replacing any tool of that name.
    pub fn register_tool(&mut self, name: &str, tool: FnTool)
        ensures
            final(self)@.tools == old(self)@.tools.insert(name@, tool@),
            final(self)@.models == old(self)@.models,
    {
        proof {
            use_type_invariant(&*self);
        }
        let ghost before = self.tools@;
        let ghost x = tool@;
        let mut tools = Vec::new();
        std::mem::swap(&mut tools, &mut self.tools);
        match tool_slot(&tools, name) {
            Some(i) => {
                tools.set(i, (owned(name), tool));
                assert(unique_tools(tools@)) by {
                    assert forall|a: int, b: int| 0 <= a < b < tools@.len() implies tools@[a].0@
                        != tools@[b].0@ by {
                        assert(a != i ==> tools@[a] == before[a]);
                        assert(b != i ==> tools@[b] == before[b]);
                    }
                }
                assert(tool_map(tools@) =~= tool_map(before).insert(name@, x)) by {
                    assert forall|k: Seq<char>| #[trigger] tool_map(tools@).contains_key(k) <==> tool_map(
                        before,
                    ).insert(name@, x).contains_key(k) by {
                        if tool_map(before).contains_key(k) {
                            let j = choose|j: int| 0 <= j < before.len() && before[j].0@ == k;
                            assert(tools@[j].0@ == k);
                        }
                        if tool_map(tools@).contains_key(k) {
                            let j = choose|j: int| 0 <= j < tools@.len() && tools@[j].0@ == k;
                            if j != i {
                                assert(before[j].0@ == k);
                            }
                        }
                    }
                    assert forall|k: Seq<char>| tool_map(tools@).contains_key(k) implies tool_map(tools@)[k]
                        == tool_map(before).insert(name@, x)[k] by {
                        let j = choose|j: int| 0 <= j < tools@.len() && tools@[j].0@ == k;
                        lemma_entry_index(tools@, j);
                        if j != i {
                            assert(before[j] == tools@[j]);
                            lemma_entry_index(before, j);
                        }
                    }
                }
            },
            None => {
                tools.push((owned(name), tool));
                let ghost n: int = before.len() as int;
                assert(unique_tools(tools@)) by {
                    assert forall|a: int, b: int| 0 <= a < b < tools@.len() implies tools@[a].0@
                        != tools@[b].0@ by {
                        assert(tools@[a] == before[a]);
                        if b < n {
                            assert(tools@[b] == before[b]);
                        } else {
                            assert(tool_map(before).contains_key(before[a].0@));
                        }
                    }
                }
                assert(tool_map(tools@) =~= tool_map(before).insert(name@, x)) by {
                    assert forall|k: Seq<char>| #[trigger] tool_map(tools@).contains_key(k) <==> tool_map(
                        before,
                    ).insert(name@, x).contains_key(k) by {
                        if tool_map(before).contains_key(k) {
                            let j = choose|j: int| 0 <= j < before.len() && before[j].0@ == k;
                            assert(tools@[j] == before[j]);
                        }
                        if k == name@ {
                            assert(tools@[n].0@ == k);
                        }
                        if tool_map(tools@).contains_key(k) {
                            let j = choose|j: int| 0 <= j < tools@.len() && tools@[j].0@ == k;
                            if j < n {
                                assert(before[j] == tools@[j]);
                            }
                        }
                    }
                    assert forall|k: Seq<char>| tool_map(tools@).contains_key(k) implies tool_map(tools@)[k]
                        == tool_map(before).insert(name@, x)[k] by {
                        let j = choose|j: int| 0 <= j < tools@.len() && tools@[j].0@ == k;
                        lemma_entry_index(tools@, j);
                        if j < n {
                            assert(before[j] == tools@[j]);
                            lemma_entry_index(before, j);
                        }
                    }
                }
            },
        }
        std::mem::swap(&mut tools, &mut self.tools);
    }

    /// This registry with a model registered under `name`.
    pub fn with_model(self, name: &str) -> (r: RuntimeRegistry)
        ensures
            r@.models == self@.models.insert(name@),
            r@.tools == self@.tools,
    {
        let mut r = self;
        r.register_model(name);
        r
    }

    /// This registry with a tool registered under `name`.
    pub fn with_tool(self, name: &str, tool: FnTool) -> (r: RuntimeRegistry)
        ensures
            r@.tools == self@.tools.insert(name@, tool@),
            r@.models == self@.models,
    {
        let mut r = self;
        r.register_tool(name, tool);
        r
    }

    /// The model registered under `name`, as the key an agent names it by.
    pub fn resolve_model(&self, name: &str) -> (r: Result<String, CrewError>)
        ensures
            match r {
                Ok(k) => self@.models.contains(name@) && k@ == name@,
                Err(e) => !self@.models.contains(name@) && e@ == CrewErrorView::MissingModel(name@),
            },
    {
        match model_slot(&self.models, name) {
            Some(i) => Ok(self.models[i].clone()),
            None => Err(CrewError::MissingModel(owned(name))),
        }
    }

    /// The tool registered under `name`.
    pub fn resolve_tool(&self, name: &str) -> (r: Result<FnTool, CrewError>)
        ensures
            match r {
                Ok(t) => self@.tools.contains_key(name@) && t@ == self@.tools[name@],
                Err(e) => !self@.tools.contains_key(name@) && e@ == CrewErrorView::MissingTool(name@),
            },
    {
        proof {
            use_type_invariant(self);
        }
        match tool_slot(&self.tools, name) {
            Some(i) => {
                proof {
                    lemma_entry_index(self.tools@, i as int);
                }
                Ok(self.tools[i].1.duplicate())
            },
            None => Err(CrewError::MissingTool(owned(name))),
        }
    }

    /// Registers a model under `name`.
    pub fn register_model(&mut self, name: &str)
        ensures
            final(self)@.models == old(self)@.models.insert(name@),
            final(self)@.tools == old(self)@.tools,
    {
        proof {
            use_type_invariant(&*self);
        }
        let ghost before = self.models@;
        match model_slot(&self.models, name) {
            Some(_) => {
                assert(model_names(before) =~= model_names(before).insert(name@));
            },
            None => {
                let mut models = Vec::new();
                std::mem::swap(&mut models, &mut self.models);
                models.push(owned(name));
                assert(model_names(models@) =~= model_names(before).insert(name@)) by {
                    assert(models@[before.len() as int]@ == name@);
                    assert forall|k: Seq<char>| model_names(before).contains(k) implies model_names(
                        models@,
                    ).contains(k) by {
                        let i = choose|i: int| 0 <= i < before.len() && before[i]@ == k;
                        assert(models@[i] == before[i]);
                    }
                    assert forall|k: Seq<char>| model_names(models@).contains(k) implies #[trigger] model_names(
                        before,
                    ).insert(name@).contains(k) by {
                        let i = choose|i: int| 0 <= i < models@.len() && models@[i]@ == k;
                        if i < before.len() {
                            assert(models@[i] == before[i]);
                        }
                    }
                }
                assert(unique_models(models@)) by {
                    assert forall|i: int, j: int| 0 <= i < j < models@.len() implies models@[i]@
                        != models@[j]@ by {
                        if j == before.len() {
                            assert(models@[i] == before[i]);
                            assert(model_names(before).contains(models@[i]@));
                        } else {
                            assert(models@[i] == before[i] && models@[j] == before[j]);
                        }
                    }
                }
                std::mem::swap(&mut models, &mut self.models);
            },
        }
    }
}

/// How a blueprint's crew runs its tasks.
#[derive(Debug, Clone, Copy, PartialEq, Eq, Structural)]
pub enum ProcessKind {
    Sequential,
    Hierarchical,
}

impl Default for ProcessKind {
    fn default() -> (r: ProcessKind)
        ensures
            r == ProcessKind::Sequential,
    {
        ProcessKind::Sequential
    }
}

/// The number of model calls an agent of a blueprint may make per task where
/// the blueprint does not say.
pub fn default_iterations() -> (r: usize)
    ensures
        r == 4,
{
    4
}

/// A task described as plain data.
#[derive(Debug, Clone)]
pub struct TaskBlueprint {
    pub id: String,
    pub description: String,
    pub expected_output: Option<String>,
    pub agent: String,
    pub depends_on: Vec<String>,
    pub context: Option<String>,
    pub output_format: OutputFormat,
}

/// The builder that a task blueprint fills in.
pub open spec fn task_blueprint_builder(b: TaskBlueprint) -> TaskBuilderView {
    TaskBuilderView {
        id: b.id@,
        description: Some(b.description@),
        expected_output: opt_view(b.expected_output),
        agent: Some(b.agent@),
        depends_on: strings_view(b.depends_on@),
        context: opt_view(b.context),
        output_format: b.output_format,
    }
}

impl TaskBlueprint {
    /// Builds the task that the blueprint describes.
    pub fn build(&self) -> (r: Result<Task, CrewError>)
        ensures
            task_result_view(r) == task_build_result(task_blueprint_builder(*self)),
    {
        let mut builder = Task::builder(self.id.as_str()).description(self.description.as_str()).agent(
            self.agent.as_str(),
        ).depends_on(clone_strings(&self.depends_on)).output_format(self.output_format);
        match &self.expected_output {
            Some(e) => {
                builder = builder.expected_output(e.as_str());
            },
            None => {},
        }
        match &self.context {
            Some(c) => {
                builder = builder.context(c.as_str());
            },
            None => {},
        }
        builder.build()
    }
}

/// An agent described as plain data: its model and tools are named by the
/// keys under which a registry holds them.
#[derive(Debug, Clone)]
pub struct AgentBlueprint {
    pub id: String,
    pub role: String,
    pub goal: String,
    pub backstory: Option<String>,
    pub model: String,
    pub tools: Vec<String>,
    pub max_iterations: usize,
    pub allow_delegation: bool,
}

/// The tools named `names`, in their order, or the first name that the
/// registry does not hold.
pub open spec fn resolve_tools(names: Seq<Seq<char>>, tools: Map<Seq<char>, FnToolView>) -> Result<
    Seq<FnToolView>,
    Seq<char>,
>
    decreases names.len(),
{
    if names.len() == 0 {
        Ok(Seq::empty())
    } else {
        match resolve_tools(names.drop_last(), tools) {
            Err(n) => Err(n),
            Ok(found) => if tools.contains_key(names.last()) {
                Ok(found.push(tools[names.last()]))
            } else {
                Err(names.last())
            },
        }
    }
}

/// What building an agent blueprint against `reg` gives: the error for a
/// model the registry does not hold, then for the first such tool, then that
/// of building the agent.
pub open spec fn agent_blueprint_result(b: AgentBlueprint, reg: RuntimeRegistryView) -> Result<
    AgentView,
    CrewErrorView,
> {
    if !reg.models.contains(b.model@) {
        Err(CrewErrorView::MissingModel(b.model@))
    } else {
        match resolve_tools(strings_view(b.tools@), reg.tools) {
            Err(n) => Err(CrewErrorView::MissingTool(n)),
            Ok(tools) => agent_build_result(
                AgentBuilderView {
                    id: b.id@,
                    role: Some(b.role@),
                    goal: Some(b.goal@),
                    backstory: opt_view(b.backstory),
                    model: Some(b.model@),
                    tools,
                    max_iterations: b.max_iterations as nat,
                    allow_delegation: b.allow_delegation,
                },
            ),
        }
    }
}

proof fn lemma_resolve_err_stays(names: Seq<Seq<char>>, tools: Map<Seq<char>, FnToolView>, k: int)
    requires
        0 <= k <= names.len(),
        resolve_tools(names.take(k), tools) is Err,
    ensures
        resolve_tools(names, tools) == resolve_tools(names.take(k), tools),
    decreases names.len() - k,
{
    if k < names.len() {
        assert(names.take(k + 1).drop_last() =~= names.take(k));
        lemma_resolve_err_stays(names, tools, k + 1);
    } else {
        assert(names.take(k) =~= names);
    }
}

proof fn lemma_resolve_tools(names: Seq<Seq<char>>, tools: Map<Seq<char>, FnToolView>)
    ensures
        resolve_tools(names, tools) is Ok <==> forall|i: int|
            0 <= i < names.len() ==> tools.contains_key(#[trigger] names[i]),
        resolve_tools(names, tools) matches Ok(v) ==> v.len() == names.len() && forall|i: int|
            0 <= i < names.len() ==> #[trigger] v[i] == tools[names[i]],
        resolve_tools(names, tools) matches Err(n) ==> !tools.contains_key(n) && names.contains(n),
    decreases names.len(),
{
    if names.len() > 0 {
        let init = names.drop_last();
        lemma_resolve_tools(init, tools);
        assert forall|i: int| 0 <= i < init.len() implies #[trigger] init[i] == names[i] by {}
        if resolve_tools(init, tools) is Ok {
            if tools.contains_key(names.last()) {
                let v = resolve_tools(names, tools)->Ok_0;
                assert forall|i: int| 0 <= i < names.len() implies #[trigger] v[i] == tools[names[i]] by {
                    if i < init.len() {
                        assert(init[i] == names[i]);
                    }
                }
                assert forall|i: int| 0 <= i < names.len() implies tools.contains_key(#[trigger] names[i]) by {
                    if i < init.len() {
                        assert(init[i] == names[i]);
                    }
                }
            } else {
                assert(names.contains(names[names.len() - 1]));
            }
        } else {
            let n = resolve_tools(init, tools)->Err_0;
            let k = choose|k: int| 0 <= k < init.len() && init[k] == n;
            assert(names[k] == n);
        }
    }
}

/// An agent built from a blueprint has the blueprint's id, role, goal,
/// backstory, model, turn limit and delegation flag, and the registry's tools
/// under the blueprint's tool names, in their order. Building succeeds exactly
/// when the registry holds the model and every tool, the id is not blank and
/// the turn limit is not zero; a missing model is reported first.
pub proof fn law_agent_blueprint_fields(b: AgentBlueprint, reg: RuntimeRegistryView)
    ensures
        agent_blueprint_result(b, reg) is Ok <==> {
            &&& reg.models.contains(b.model@)
            &&& forall|i: int| 0 <= i < b.tools@.len() ==> reg.tools.contains_key(#[trigger] b.tools@[i]@)
            &&& !is_blank(b.id@)
            &&& b.max_iterations > 0
        },
        agent_blueprint_result(b, reg) matches Ok(a) ==> {
            &&& a.id == b.id@
            &&& a.role == b.role@
            &&& a.goal == b.goal@
            &&& a.backstory == opt_view(b.backstory)
            &&& a.model == b.model@
            &&& a.max_iterations == b.max_iterations as nat
            &&& a.allow_delegation == b.allow_delegation
            &&& a.tools.len() == b.tools@.len()
            &&& forall|i: int| 0 <= i < b.tools@.len() ==> #[trigger] a.tools[i] == reg.tools[b.tools@[i]@]
        },
        !reg.models.contains(b.model@) ==> agent_blueprint_result(b, reg) == Err::<AgentView, CrewErrorView>(
            CrewErrorView::MissingModel(b.model@),
        ),
{
    let names = strings_view(b.tools@);
    lemma_resolve_tools(names, reg.tools);
    assert forall|i: int| 0 <= i < b.tools@.len() implies #[trigger] names[i] == b.tools@[i]@ by {}
    if resolve_tools(names, reg.tools) is Err {
        let n = resolve_tools(names, reg.tools)->Err_0;
        let k = choose|k: int| 0 <= k < names.len() && names[k] == n;
        assert(!reg.tools.contains_key(b.tools@[k]@));
    } else {
        assert forall|i: int| 0 <= i < b.tools@.len() implies reg.tools.contains_key(#[trigger] b.tools@[i]@) by {
            assert(names[i] == b.tools@[i]@);
        }
    }
}

impl AgentBlueprint {
    /// Builds the agent that the blueprint describes, with the model and tools
    /// that `registry` holds under the blueprint's names.
    pub fn build(&self, registry: &RuntimeRegistry) -> (r: Result<Agent, CrewError>)
        ensures
            agent_result_view(r) == agent_blueprint_result(*self, registry@),
    {
        let model = match registry.resolve_model(self.model.as_str()) {
            Ok(m) => m,
            Err(e) => {
                return Err(e);
            },
        };
        let mut builder = Agent::builder(self.id.as_str()).role(self.role.as_str()).goal(
            self.goal.as_str(),
        ).model(model.as_str()).max_iterations(self.max_iterations).allow_delegation(
            self.allow_delegation,
        );
        match &self.backstory {
            Some(b) => {
                builder = builder.backstory(b.as_str());
            },
            None => {},
        }
        let ghost names = strings_view(self.tools@);
        let ghost reg = registry@;
        let ghost base = builder@;
        let mut i: usize = 0;
        assert(names.take(0) =~= Seq::<Seq<char>>::empty());
        while i < self.tools.len()
            invariant
                i <= self.tools@.len(),
                names == strings_view(self.tools@),
                reg == registry@,
                reg.models.contains(self.model@),
                resolve_tools(names.take(i as int), reg.tools) is Ok,
                builder@ == (AgentBuilderView {
                    tools: base.tools + resolve_tools(names.take(i as int), reg.tools)->Ok_0,
                    ..base
                }),
            decreases self.tools.len() - i,
        {
            assert(names.take(i + 1).drop_last() =~= names.take(i as int));
            assert(names.take(i + 1).last() == self.tools@[i as int]@);
            match registry.resolve_tool(self.tools[i].as_str()) {
                Ok(t) => {
                    builder = builder.tool(t);
                    assert(builder@.tools =~= base.tools + resolve_tools(names.take(i + 1), reg.tools)->Ok_0);
                },
                Err(e) => {
                    proof {
                        assert(resolve_tools(names.take(i + 1), reg.tools) == Err::<Seq<FnToolView>, Seq<char>>(
                            names[i as int],
                        ));
                        lemma_resolve_err_stays(names, reg.tools, i + 1);
                    }
                    return Err(e);
                },
            }
            i = i + 1;
        }
        assert(names.take(i as int) =~= names);
        assert(base.tools =~= Seq::empty());
        assert(builder@.tools =~= resolve_tools(names, reg.tools)->Ok_0);
        builder.build()
    }
}

/// A crew described as plain data.
#[derive(Debug, Clone)]
pub struct CrewBlueprint {
    pub name: String,
    pub process: ProcessKind,
    pub agents: Vec<AgentBlueprint>,
    pub tasks: Vec<TaskBlueprint>,
    pub manager: Option<AgentBlueprint>,
}

/// The agents of the blueprints, each added to the crew in turn (replacing
/// one with the same id), or the first error.
pub open spec fn build_agents(bps: Seq<AgentBlueprint>, reg: RuntimeRegistryView) -> Result<
    Seq<AgentView>,
    CrewErrorView,
>
    decreases bps.len(),
{
    if bps.len() == 0 {
        Ok(Seq::empty())
    } else {
        match build_agents(bps.drop_last(), reg) {
            Err(e) => Err(e),
            Ok(agents) => match agent_blueprint_result(bps.last(), reg) {
                Err(e) => Err(e),
                Ok(a) => Ok(keyed_insert(agents, |x: AgentView| x.id, a)),
            },
        }
    }
}

/// The tasks of the blueprints, in their order, or the first error.
pub open spec fn build_tasks(bps: Seq<TaskBlueprint>) -> Result<Seq<TaskView>, CrewErrorView>
    decreases bps.len(),
{
    if bps.len() == 0 {
        Ok(Seq::empty())
    } else {
        match build_tasks(bps.drop_last()) {
            Err(e) => Err(e),
            Ok(tasks) => match task_build_result(task_blueprint_builder(bps.last())) {
                Err(e) => Err(e),
                Ok(t) => Ok(tasks.push(t)),
            },
        }
    }
}

/// The process of a blueprint: a hierarchical one needs a manager that builds.
pub open spec fn blueprint_process(bp: CrewBlueprint, reg: RuntimeRegistryView) -> Result<
    ProcessView,
    CrewErrorView,
> {
    match bp.process {
        ProcessKind::Sequential => Ok(ProcessView::Sequential),
        ProcessKind::Hierarchical => match bp.manager {
            None => Err(
                CrewErrorView::InvalidConfig("hierarchical blueprints require a manager agent"@),
            ),
            Some(m) => match agent_blueprint_result(m, reg) {
                Err(e) => Err(e),
                Ok(a) => Ok(ProcessView::Hierarchical { manager: a }),
            },
        },
    }
}

/// The crew builder that a blueprint fills in: its agents, then its tasks,
/// then its process, each stopping at the first error.
pub open spec fn crew_blueprint_builder(bp: CrewBlueprint, reg: RuntimeRegistryView) -> Result<
    CrewView,
    CrewErrorView,
> {
    match build_agents(bp.agents@, reg) {
        Err(e) => Err(e),
        Ok(agents) => match build_tasks(bp.tasks@) {
            Err(e) => Err(e),
            Ok(tasks) => match blueprint_process(bp, reg) {
                Err(e) => Err(e),
                Ok(process) => Ok(CrewView { name: bp.name@, agents, tasks, process }),
            },
        },
    }
}

/// What building a blueprint against `reg` gives.
pub open spec fn crew_blueprint_result(bp: CrewBlueprint, reg: RuntimeRegistryView) -> Result<
    CrewView,
    CrewErrorView,
> {
    match crew_blueprint_builder(bp, reg) {
        Err(e) => Err(e),
        Ok(b) => crew_build_result(b),
    }
}

/// The view of a result that holds a crew builder.
pub open spec fn builder_result_view(r: Result<CrewBuilder, CrewError>) -> Result<CrewView, CrewErrorView> {
    match r {
        Ok(b) => Ok(b@),
        Err(e) => Err(e@),
    }
}

proof fn lemma_build_agents_err_stays(bps: Seq<AgentBlueprint>, reg: RuntimeRegistryView, k: int)
    requires
        0 <= k <= bps.len(),
        build_agents(bps.take(k), reg) is Err,
    ensures
        build_agents(bps, reg) == build_agents(bps.take(k), reg),
    decreases bps.len() - k,
{
    if k < bps.len() {
        assert(bps.take(k + 1).drop_last() =~= bps.take(k));
        lemma_build_agents_err_stays(bps, reg, k + 1);
    } else {
        assert(bps.take(k) =~= bps);
    }
}

proof fn lemma_build_tasks_err_stays(bps: Seq<TaskBlueprint>, k: int)
    requires
        0 <= k <= bps.len(),
        build_tasks(bps.take(k)) is Err,
    ensures
        build_tasks(bps) == build_tasks(bps.take(k)),
    decreases bps.len() - k,
{
    if k < bps.len() {
        assert(bps.take(k + 1).drop_last() =~= bps.take(k));
        lemma_build_tasks_err_stays(bps, k + 1);
    } else {
        assert(bps.take(k) =~= bps);
    }
}

impl CrewBlueprint {
    /// The crew builder that the blueprint fills in, with the agents and tools
    /// that `registry` holds, before it is validated.
    pub fn builder(&self, registry: &RuntimeRegistry) -> (r: Result<CrewBuilder, CrewError>)
        ensures
            builder_result_view(r) == crew_blueprint_builder(*self, registry@),
    {
        let ghost reg = registry@;
        let ghost abps = self.agents@;
        let ghost tbps = self.tasks@;
        let mut builder = Crew::builder(self.name.as_str());
        let mut i: usize = 0;
        assert(abps.take(0) =~= Seq::<AgentBlueprint>::empty());
        while i < self.agents.len()
            invariant
                i <= abps.len(),
                abps == self.agents@,
                reg == registry@,
                build_agents(abps.take(i as int), reg) is Ok,
                builder@ == (CrewView {
                    name: self.name@,
                    agents: build_agents(abps.take(i as int), reg)->Ok_0,
                    tasks: Seq::empty(),
                    process: ProcessView::Sequential,
                }),
            decreases self.agents.len() - i,
        {
            assert(abps.take(i + 1).drop_last() =~= abps.take(i as int));
            assert(abps.take(i + 1).last() == abps[i as int]);
            match self.agents[i].build(registry) {
                Ok(a) => {
                    builder = builder.agent(a);
                },
                Err(e) => {
                    proof {
                        lemma_build_agents_err_stays(abps, reg, i + 1);
                    }
                    return Err(e);
                },
            }
            i = i + 1;
        }
        assert(abps.take(i as int) =~= abps);
        let ghost agents = builder@.agents;
        let mut j: usize = 0;
        assert(tbps.take(0) =~= Seq::<TaskBlueprint>::empty());
        while j < self.tasks.len()
            invariant
                j <= tbps.len(),
                tbps == self.tasks@,
                abps == self.agents@,
                reg == registry@,
                build_agents(abps, reg) == Ok::<Seq<AgentView>, CrewErrorView>(agents),
                build_tasks(tbps.take(j as int)) is Ok,
                builder@ == (CrewView {
                    name: self.name@,
                    agents,
                    tasks: build_tasks(tbps.take(j as int))->Ok_0,
                    process: ProcessView::Sequential,
                }),
            decreases self.tasks.len() - j,
        {
            assert(tbps.take(j + 1).drop_last() =~= tbps.take(j as int));
            assert(tbps.take(j + 1).last() == tbps[j as int]);
            match self.tasks[j].build() {
                Ok(t) => {
                    builder = builder.task(t);
                },
                Err(e) => {
                    proof {
                        lemma_build_tasks_err_stays(tbps, j + 1);
                    }
                    return Err(e);
                },
            }
            j = j + 1;
        }
        assert(tbps.take(j as int) =~= tbps);
        match self.process {
            ProcessKind::Sequential => Ok(builder),
            ProcessKind::Hierarchical => match &self.manager {
                None => Err(
                    CrewError::InvalidConfig(owned("hierarchical blueprints require a manager agent")),
                ),
                Some(m) => match m.build(registry) {
                    Err(e) => Err(e),
                    Ok(manager) => Ok(builder.process(Process::Hierarchical { manager })),
                },
            },
        }
    }

    /// Builds the crew that the blueprint describes, with the agents and tools
    /// that `registry` holds.
    pub fn build(&self, registry: &RuntimeRegistry) -> (r: Result<Crew, CrewError>)
        requires
            crew_blueprint_builder(*self, registry@) matches Ok(b) ==> total_deps(b.tasks) <= usize::MAX
                && (build_reaches_ordering(b) ==> !ordering_panics(b.tasks)),
        ensures
            crew_result_view(r) == crew_blueprint_result(*self, registry@),
    {
        match self.builder(registry) {
            Err(e) => Err(e),
            Ok(b) => b.build(),
        }
    }
}

} // verus!
