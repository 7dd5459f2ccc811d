//! What passes between an agent and its tools.
use vstd::prelude::*;

use crate::text::{owned, pairs_view};

verus! {

/// What a tool is called with: the input the model chose, the task and agent
/// that call it, and metadata kept in key order.
#[derive(Debug, Clone)]
pub struct ToolInput {
    pub value: String,
    pub task_id: String,
    pub agent_id: String,
    pub metadata: Vec<(String, String)>,
}

/// The mathematical view of a [`ToolInput`].
pub struct ToolInputView {
    pub value: Seq<char>,
    pub task_id: Seq<char>,
    pub agent_id: Seq<char>,
    pub metadata: Seq<(Seq<char>, Seq<char>)>,
}

impl View for ToolInput {
    type V = ToolInputView;

    open spec fn view(&self) -> ToolInputView {
        ToolInputView {
            value: self.value@,
            task_id: self.task_id@,
            agent_id: self.agent_id@,
            metadata: pairs_view(self.metadata@),
        }
    }
}

impl ToolInput {
    pub fn new(value: &str, task_id: &str, agent_id: &str) -> (r: ToolInput)
        ensures
            r.value@ == value@,
            r.task_id@ == task_id@,
            r.agent_id@ == agent_id@,
            r.metadata@.len() == 0,
            r@ == (ToolInputView {
                value: value@,
                task_id: task_id@,
                agent_id: agent_id@,
                metadata: Seq::empty(),
            }),
    {
        let r = ToolInput {
            value: owned(value),
            task_id: owned(task_id),
            agent_id: owned(agent_id),
            metadata: Vec::new(),
        };
        assert(pairs_view(r.metadata@) =~= Seq::empty());
        r
    }
}

/// What a tool returns.
#[derive(Debug, Clone)]
pub struct ToolOutput {
    pub content: String,
    pub metadata: Vec<(String, String)>,
}

impl ToolOutput {
    pub fn text(content: &str) -> (r: ToolOutput)
        ensures
            r.content@ == content@,
            r.metadata@.len() == 0,
    {
        ToolOutput { content: owned(content), metadata: Vec::new() }
    }
}

/// One call of a tool during a task.
#[derive(Debug, Clone)]
pub struct ToolCallRecord {
    pub tool: String,
    pub input: String,
    pub output: String,
}

/// The mathematical view of a [`ToolCallRecord`].
pub struct ToolCallRecordView {
    pub tool: Seq<char>,
    pub input: Seq<char>,
    pub output: Seq<char>,
}

impl View for ToolCallRecord {
    type V = ToolCallRecordView;

    open spec fn view(&self) -> ToolCallRecordView {
        ToolCallRecordView { tool: self.tool@, input: self.input@, output: self.output@ }
    }
}

/// The views of a sequence of tool calls.
pub open spec fn calls_view(v: Seq<ToolCallRecord>) -> Seq<ToolCallRecordView> {
    v.map_values(|c: ToolCallRecord| c@)
}

impl ToolCallRecord {
    /// A duplicate of this record.
    pub fn duplicate(&self) -> (r: ToolCallRecord)
        ensures
            r@ == self@,
    {
        ToolCallRecord { tool: self.tool.clone(), input: self.input.clone(), output: self.output.clone() }
    }
}

/// A duplicate of a list of tool calls.
pub fn clone_calls(v: &Vec<ToolCallRecord>) -> (r: Vec<ToolCallRecord>)
    ensures
        calls_view(r@) == calls_view(v@),
{
    let mut r: Vec<ToolCallRecord> = Vec::new();
    let mut i: usize = 0;
    while i < v.len()
        invariant
            i <= v.len(),
            r@.len() == i,
            forall|k: int| 0 <= k < i ==> #[trigger] r@[k]@ == v@[k]@,
        decreases v.len() - i,
    {
        r.push(v[i].duplicate());
        i = i + 1;
    }
    assert(calls_view(r@) =~= calls_view(v@));
    r
}

/// A tool as the library knows it: its name, which the model uses to call it,
/// and its description, which the agent's prompt lists.
#[derive(Debug, Clone)]
pub struct FnTool {
    name: String,
    description: String,
}

/// The mathematical view of a [`FnTool`]: name and description.
pub type FnToolView = (Seq<char>, Seq<char>);

impl View for FnTool {
    type V = FnToolView;

    closed spec fn view(&self) -> FnToolView {
        (self.name@, self.description@)
    }
}

/// The views of a sequence of tools.
pub open spec fn tools_view(v: Seq<FnTool>) -> Seq<FnToolView> {
    v.map_values(|t: FnTool| t@)
}

impl FnTool {
    pub fn new(name: &str, description: &str) -> (r: FnTool)
        ensures
            r@ == (name@, description@),
    {
        FnTool { name: owned(name), description: owned(description) }
    }

    pub fn name(&self) -> (r: &str)
        ensures
            r@ == self@.0,
    {
        self.name.as_str()
    }

    pub fn description(&self) -> (r: &str)
        ensures
            r@ == self@.1,
    {
        self.description.as_str()
    }

    /// A duplicate of this tool.
    pub fn duplicate(&self) -> (r: FnTool)
        ensures
            r@ == self@,
    {
        FnTool { name: self.name.clone(), description: self.description.clone() }
    }
}

/// A duplicate of a list of tools.
pub fn clone_tools(v: &Vec<FnTool>) -> (r: Vec<FnTool>)
    ensures
        tools_view(r@) == tools_view(v@),
{
    let mut r: Vec<FnTool> = Vec::new();
    let mut i: usize = 0;
    while i < v.len()
        invariant
            i <= v.len(),
            r@.len() == i,
            forall|k: int| 0 <= k < i ==> #[trigger] r@[k]@ == v@[k]@,
        decreases v.len() - i,
    {
        r.push(v[i].duplicate());
        i = i + 1;
    }
    assert(tools_view(r@) =~= tools_view(v@));
    r
}

} // verus!
