//! The library's error type.
use vstd::prelude::*;

verus! {

/// The ways in which configuring or running a crew or a flow can fail.
#[derive(Debug, Clone)]
pub enum CrewError {
    InvalidConfig(String),
    MissingAgent(String),
    MissingTask(String),
    MissingTool(String),
    MissingModel(String),
    MissingDependency { task: String, dependency: String },
    CyclicTaskGraph,
    MaxIterationsExceeded { agent: String, task: String },
    Model(String),
    Tool(String),
}

/// The mathematical view of a [`CrewError`].
pub enum CrewErrorView {
    InvalidConfig(Seq<char>),
    MissingAgent(Seq<char>),
    MissingTask(Seq<char>),
    MissingTool(Seq<char>),
    MissingModel(Seq<char>),
    MissingDependency { task: Seq<char>, dependency: Seq<char> },
    CyclicTaskGraph,
    MaxIterationsExceeded { agent: Seq<char>, task: Seq<char> },
    Model(Seq<char>),
    Tool(Seq<char>),
}

impl View for CrewError {
    type V = CrewErrorView;

    open spec fn view(&self) -> CrewErrorView {
        match self {
            CrewError::InvalidConfig(m) => CrewErrorView::InvalidConfig(m@),
            CrewError::MissingAgent(m) => CrewErrorView::MissingAgent(m@),
            CrewError::MissingTask(m) => CrewErrorView::MissingTask(m@),
            CrewError::MissingTool(m) => CrewErrorView::MissingTool(m@),
            CrewError::MissingModel(m) => CrewErrorView::MissingModel(m@),
            CrewError::MissingDependency { task, dependency } => CrewErrorView::MissingDependency {
                task: task@,
                dependency: dependency@,
            },
            CrewError::CyclicTaskGraph => CrewErrorView::CyclicTaskGraph,
            CrewError::MaxIterationsExceeded { agent, task } => CrewErrorView::MaxIterationsExceeded {
                agent: agent@,
                task: task@,
            },
            CrewError::Model(m) => CrewErrorView::Model(m@),
            CrewError::Tool(m) => CrewErrorView::Tool(m@),
        }
    }
}

impl CrewError {
    /// A duplicate of this error.
    pub fn duplicate(&self) -> (r: CrewError)
        ensures
            r@ == self@,
    {
        match self {
            CrewError::InvalidConfig(m) => CrewError::InvalidConfig(m.clone()),
            CrewError::MissingAgent(m) => CrewError::MissingAgent(m.clone()),
            CrewError::MissingTask(m) => CrewError::MissingTask(m.clone()),
            CrewError::MissingTool(m) => CrewError::MissingTool(m.clone()),
            CrewError::MissingModel(m) => CrewError::MissingModel(m.clone()),
            CrewError::MissingDependency { task, dependency } => CrewError::MissingDependency {
                task: task.clone(),
                dependency: dependency.clone(),
            },
            CrewError::CyclicTaskGraph => CrewError::CyclicTaskGraph,
            CrewError::MaxIterationsExceeded { agent, task } => CrewError::MaxIterationsExceeded {
                agent: agent.clone(),
                task: task.clone(),
            },
            CrewError::Model(m) => CrewError::Model(m.clone()),
            CrewError::Tool(m) => CrewError::Tool(m.clone()),
        }
    }
}

} // verus!
