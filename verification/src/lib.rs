//! Multi-agent orchestration primitives: agents, tasks and crews that run
//! their tasks in dependency order, typed flows, and blueprints that describe
//! a crew as plain data.
//!
//! The library decides; the caller acts. A run of a crew or of a flow is a
//! state machine that says what to ask of a model, a tool or a step next, and
//! is handed back what came of it.
use vstd::prelude::*;

pub mod agent;
pub mod blueprint;
pub mod crew;
pub mod error;
pub mod flow;
pub mod kickoff;
pub mod model;
pub mod prompts;
pub mod schedule;
pub mod schedule_laws;
pub mod task;
pub mod text;
pub mod tool;

pub use agent::{Agent, AgentBuilder};
pub use blueprint::{AgentBlueprint, CrewBlueprint, ProcessKind, RuntimeRegistry, TaskBlueprint};
pub use crew::{
    Crew, CrewBuilder, CrewExecution, KickoffInput, Process, TaskOutcome, TranscriptEvent,
    TranscriptEventKind,
};
pub use error::{CrewError, CrewErrorView};
pub use flow::{Flow, FlowAction, FlowBuilder, FlowContext, FlowRun, FlowRunner, FlowTransition};
pub use kickoff::{KickoffAction, KickoffRun, RunPhase};
pub use model::{ChatContent, MessageRole, ModelMessage, ModelResponse, TokenUsage};
pub use task::{OutputFormat, Task, TaskBuilder};
pub use tool::{FnTool, ToolCallRecord, ToolInput, ToolOutput};

verus! {
}
