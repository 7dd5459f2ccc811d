//! Agents: a role with a goal, the model it talks to, and the tools it may call.
use vstd::prelude::*;

use crate::error::{CrewError, CrewErrorView};
use crate::text::{clone_opt, is_blank, opt_as_str, opt_view, owned, push_str, str_equal, str_is_blank};
use crate::tool::{clone_tools, tools_view, FnTool, FnToolView};

verus! {

/// A validated agent. Its model is named by the key under which the caller
/// keeps the model itself.
#[derive(Debug, Clone)]
pub struct Agent {
    id: String,
    role: String,
    goal: String,
    backstory: Option<String>,
    model: String,
    tools: Vec<FnTool>,
    max_iterations: usize,
    allow_delegation: bool,
}

/// The mathematical view of an [`Agent`].
pub struct AgentView {
    pub id: Seq<char>,
    pub role: Seq<char>,
    pub goal: Seq<char>,
    pub backstory: Option<Seq<char>>,
    pub model: Seq<char>,
    pub tools: Seq<FnToolView>,
    pub max_iterations: nat,
    pub allow_delegation: bool,
}

impl View for Agent {
    type V = AgentView;

    closed spec fn view(&self) -> AgentView {
        AgentView {
            id: self.id@,
            role: self.role@,
            goal: self.goal@,
            backstory: opt_view(self.backstory),
            model: self.model@,
            tools: tools_view(self.tools@),
            max_iterations: self.max_iterations as nat,
            allow_delegation: self.allow_delegation,
        }
    }
}

/// The views of a sequence of agents.
pub open spec fn agents_view(v: Seq<Agent>) -> Seq<AgentView> {
    v.map_values(|a: Agent| a@)
}

/// The index of the first tool named `name`, or -1.
pub open spec fn first_tool_named(tools: Seq<FnToolView>, name: Seq<char>) -> int
    decreases tools.len(),
{
    if tools.len() == 0 {
        -1
    } else if tools[0].0 == name {
        0
    } else {
        let r = first_tool_named(tools.drop_first(), name);
        if r < 0 {
            -1
        } else {
            r + 1
        }
    }
}

impl Agent {
    /// A builder for an agent with the given id, allowing 4 model calls per task.
    pub fn builder(id: &str) -> (b: AgentBuilder)
        ensures
            b@ == (AgentBuilderView {
                id: id@,
                role: None,
                goal: None,
                backstory: None,
                model: None,
                tools: Seq::empty(),
                max_iterations: 4,
                allow_delegation: false,
            }),
    {
        let b = AgentBuilder {
            id: owned(id),
            role: None,
            goal: None,
            backstory: None,
            model: None,
            tools: Vec::new(),
            max_iterations: 4,
            allow_delegation: false,
        };
        assert(tools_view(b.tools@) =~= Seq::empty());
        b
    }

    pub fn id(&self) -> (r: &str)
        ensures
            r@ == self@.id,
    {
        self.id.as_str()
    }

    pub fn role(&self) -> (r: &str)
        ensures
            r@ == self@.role,
    {
        self.role.as_str()
    }

    pub fn goal(&self) -> (r: &str)
        ensures
            r@ == self@.goal,
    {
        self.goal.as_str()
    }

    pub fn backstory(&self) -> (r: Option<&str>)
        ensures
            r is Some == self@.backstory is Some,
            r matches Some(t) ==> self@.backstory == Some(t@),
    {
        opt_as_str(&self.backstory)
    }

    /// The key of the agent's model.
    pub fn model(&self) -> (r: &str)
        ensures
            r@ == self@.model,
    {
        self.model.as_str()
    }

    pub fn tools(&self) -> (r: &Vec<FnTool>)
        ensures
            tools_view(r@) == self@.tools,
    {
        &self.tools
    }

    pub fn max_iterations(&self) -> (r: usize)
        ensures
            r == self@.max_iterations,
    {
        self.max_iterations
    }

    pub fn allow_delegation(&self) -> (r: bool)
        ensures
            r == self@.allow_delegation,
    {
        self.allow_delegation
    }

    /// The index of the first of the agent's tools with the given name.
    pub fn find_tool(&self, tool_name: &str) -> (r: Option<usize>)
        ensures
            r matches Some(i) ==> i as int == first_tool_named(self@.tools, tool_name@),
            r is None ==> first_tool_named(self@.tools, tool_name@) == -1,
    {
        let ghost tv = tools_view(self.tools@);
        let mut i: usize = 0;
        assert(tv.skip(0) =~= tv);
        while i < self.tools.len()
            invariant
                i <= self.tools@.len(),
                tv == tools_view(self.tools@),
                first_tool_named(tv, tool_name@) == if first_tool_named(
                    tv.skip(i as int),
                    tool_name@,
                ) < 0 {
                    -1
                } else {
                    first_tool_named(tv.skip(i as int), tool_name@) + i
                },
            decreases self.tools.len() - i,
        {
            assert(tv.skip(i as int)[0] == tv[i as int]);
            if str_equal(self.tools[i].name(), tool_name) {
                return Some(i);
            }
            assert(tv.skip(i as int).drop_first() =~= tv.skip(i + 1));
            i = i + 1;
        }
        None
    }

    /// A duplicate of this agent.
    pub fn duplicate(&self) -> (r: Agent)
        ensures
            r@ == self@,
    {
        Agent {
            id: self.id.clone(),
            role: self.role.clone(),
            goal: self.goal.clone(),
            backstory: clone_opt(&self.backstory),
            model: self.model.clone(),
            tools: clone_tools(&self.tools),
            max_iterations: self.max_iterations,
            allow_delegation: self.allow_delegation,
        }
    }
}

/// Collects the fields of an agent before validating them.
#[derive(Debug, Clone)]
pub struct AgentBuilder {
    id: String,
    role: Option<String>,
    goal: Option<String>,
    backstory: Option<String>,
    model: Option<String>,
    tools: Vec<FnTool>,
    max_iterations: usize,
    allow_delegation: bool,
}

/// The mathematical view of an [`AgentBuilder`].
pub struct AgentBuilderView {
    pub id: Seq<char>,
    pub role: Option<Seq<char>>,
    pub goal: Option<Seq<char>>,
    pub backstory: Option<Seq<char>>,
    pub model: Option<Seq<char>>,
    pub tools: Seq<FnToolView>,
    pub max_iterations: nat,
    pub allow_delegation: bool,
}

impl View for AgentBuilder {
    type V = AgentBuilderView;

    closed spec fn view(&self) -> AgentBuilderView {
        AgentBuilderView {
            id: self.id@,
            role: opt_view(self.role),
            goal: opt_view(self.goal),
            backstory: opt_view(self.backstory),
            model: opt_view(self.model),
            tools: tools_view(self.tools@),
            max_iterations: self.max_iterations as nat,
            allow_delegation: self.allow_delegation,
        }
    }
}

/// What building an agent from `b` gives: the error for a missing role, goal
/// or model, a blank id, or no iterations, checked in that order; otherwise the
/// agent.
pub open spec fn agent_build_result(b: AgentBuilderView) -> Result<AgentView, CrewErrorView> {
    if b.role is None {
        Err(CrewErrorView::InvalidConfig("agent role is required"@))
    } else if b.goal is None {
        Err(CrewErrorView::InvalidConfig("agent goal is required"@))
    } else if b.model is None {
        Err(CrewErrorView::InvalidConfig("agent `"@ + b.id + "` requires a model"@))
    } else if is_blank(b.id) {
        Err(CrewErrorView::InvalidConfig("agent id cannot be empty"@))
    } else if b.max_iterations == 0 {
        Err(CrewErrorView::InvalidConfig("agent `"@ + b.id + "` must allow at least one iteration"@))
    } else {
        Ok(
            AgentView {
                id: b.id,
                role: b.role->0,
                goal: b.goal->0,
                backstory: b.backstory,
                model: b.model->0,
                tools: b.tools,
                max_iterations: b.max_iterations,
                allow_delegation: b.allow_delegation,
            },
        )
    }
}

/// The view of a result that holds an agent.
pub open spec fn agent_result_view(r: Result<Agent, CrewError>) -> Result<AgentView, CrewErrorView> {
    match r {
        Ok(a) => Ok(a@),
        Err(e) => Err(e@),
    }
}

impl AgentBuilder {
    pub fn role(self, role: &str) -> (b: AgentBuilder)
        ensures
            b@ == (AgentBuilderView { role: Some(role@), ..self@ }),
    {
        AgentBuilder { role: Some(owned(role)), ..self }
    }

    pub fn goal(self, goal: &str) -> (b: AgentBuilder)
        ensures
            b@ == (AgentBuilderView { goal: Some(goal@), ..self@ }),
    {
        AgentBuilder { goal: Some(owned(goal)), ..self }
    }

    pub fn backstory(self, backstory: &str) -> (b: AgentBuilder)
        ensures
            b@ == (AgentBuilderView { backstory: Some(backstory@), ..self@ }),
    {
        AgentBuilder { backstory: Some(owned(backstory)), ..self }
    }

    /// Names the model by the key under which the caller keeps it.
    pub fn model(self, model: &str) -> (b: AgentBuilder)
        ensures
            b@ == (AgentBuilderView { model: Some(model@), ..self@ }),
    {
        AgentBuilder { model: Some(owned(model)), ..self }
    }

    /// Adds a tool after those added before.
    pub fn tool(self, tool: FnTool) -> (b: AgentBuilder)
        ensures
            b@ == (AgentBuilderView { tools: self@.tools.push(tool@), ..self@ }),
    {
        let mut b = self;
        let ghost before = tools_view(b.tools@);
        b.tools.push(tool);
        assert(tools_view(b.tools@) =~= before.push(tool@));
        b
    }

    pub fn max_iterations(self, max_iterations: usize) -> (b: AgentBuilder)
        ensures
            b@ == (AgentBuilderView { max_iterations: max_iterations as nat, ..self@ }),
    {
        AgentBuilder { max_iterations, ..self }
    }

    pub fn allow_delegation(self, allow_delegation: bool) -> (b: AgentBuilder)
        ensures
            b@ == (AgentBuilderView { allow_delegation, ..self@ }),
    {
        AgentBuilder { allow_delegation, ..self }
    }

    /// Validates the fields and builds the agent.
    pub fn build(self) -> (r: Result<Agent, CrewError>)
        ensures
            agent_result_view(r) == agent_build_result(self@),
    {
        let role = match self.role {
            Some(r) => r,
            None => {
                return Err(CrewError::InvalidConfig(owned("agent role is required")));
            },
        };
        let goal = match self.goal {
            Some(g) => g,
            None => {
                return Err(CrewError::InvalidConfig(owned("agent goal is required")));
            },
        };
        let model = match self.model {
            Some(m) => m,
            None => {
                let mut m = owned("agent `");
                push_str(&mut m, self.id.as_str());
                push_str(&mut m, "` requires a model");
                return Err(CrewError::InvalidConfig(m));
            },
        };
        if str_is_blank(self.id.as_str()) {
            return Err(CrewError::InvalidConfig(owned("agent id cannot be empty")));
        }
        if self.max_iterations == 0 {
            let mut m = owned("agent `");
            push_str(&mut m, self.id.as_str());
            push_str(&mut m, "` must allow at least one iteration");
            return Err(CrewError::InvalidConfig(m));
        }
        Ok(
            Agent {
                id: self.id,
                role,
                goal,
                backstory: self.backstory,
                model,
                tools: self.tools,
                max_iterations: self.max_iterations,
                allow_delegation: self.allow_delegation,
            },
        )
    }
}

} // verus!
