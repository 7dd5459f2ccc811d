//! Tasks: a unit of work assigned to one agent, with the tasks it depends on.
use vstd::prelude::*;

use crate::error::{CrewError, CrewErrorView};
use crate::text::{clone_opt, clone_strings, is_blank, opt_as_str, opt_view, owned, push_str, str_is_blank, strings_view};

verus! {

/// The format in which a task asks for its output.
#[derive(Debug, Clone, Copy, PartialEq, Eq, Structural)]
pub enum OutputFormat {
    Text,
    Markdown,
    Json,
}

impl Default for OutputFormat {
    fn default() -> (r: OutputFormat)
        ensures
            r == OutputFormat::Markdown,
    {
        OutputFormat::Markdown
    }
}

/// The name of an output format as `{:?}` prints it.
pub open spec fn output_format_name(f: OutputFormat) -> Seq<char> {
    match f {
        OutputFormat::Text => "Text"@,
        OutputFormat::Markdown => "Markdown"@,
        OutputFormat::Json => "Json"@,
    }
}

impl OutputFormat {
    /// The variant's name, as the derived `Debug` prints it.
    pub fn name(&self) -> (r: String)
        ensures
            r@ == output_format_name(*self),
    {
        match self {
            OutputFormat::Text => owned("Text"),
            OutputFormat::Markdown => owned("Markdown"),
            OutputFormat::Json => owned("Json"),
        }
    }
}

/// A validated task.
#[derive(Debug, Clone)]
pub struct Task {
    pub(crate) id: String,
    pub(crate) description: String,
    pub(crate) expected_output: Option<String>,
    pub(crate) agent: String,
    pub(crate) depends_on: Vec<String>,
    pub(crate) context: Option<String>,
    pub(crate) output_format: OutputFormat,
}

/// The mathematical view of a [`Task`].
pub struct TaskView {
    pub id: Seq<char>,
    pub description: Seq<char>,
    pub expected_output: Option<Seq<char>>,
    pub agent: Seq<char>,
    pub depends_on: Seq<Seq<char>>,
    pub context: Option<Seq<char>>,
    pub output_format: OutputFormat,
}

impl View for Task {
    type V = TaskView;

    closed spec fn view(&self) -> TaskView {
        TaskView {
            id: self.id@,
            description: self.description@,
            expected_output: opt_view(self.expected_output),
            agent: self.agent@,
            depends_on: strings_view(self.depends_on@),
            context: opt_view(self.context),
            output_format: self.output_format,
        }
    }
}

/// The views of a sequence of tasks.
pub open spec fn tasks_view(tasks: Seq<Task>) -> Seq<TaskView> {
    tasks.map_values(|t: Task| t@)
}

impl Task {
    /// A builder for a task with the given id.
    pub fn builder(id: &str) -> (b: TaskBuilder)
        ensures
            b@ == (TaskBuilderView {
                id: id@,
                description: None,
                expected_output: None,
                agent: None,
                depends_on: Seq::empty(),
                context: None,
                output_format: OutputFormat::Markdown,
            }),
    {
        let b = TaskBuilder {
            id: owned(id),
            description: None,
            expected_output: None,
            agent: None,
            depends_on: Vec::new(),
            context: None,
            output_format: OutputFormat::Markdown,
        };
        assert(strings_view(b.depends_on@) =~= Seq::empty());
        b
    }

    pub fn id(&self) -> (r: &str)
        ensures
            r@ == self@.id,
    {
        self.id.as_str()
    }

    pub fn description(&self) -> (r: &str)
        ensures
            r@ == self@.description,
    {
        self.description.as_str()
    }

    pub fn expected_output(&self) -> (r: Option<&str>)
        ensures
            r is Some == self@.expected_output is Some,
            r matches Some(t) ==> self@.expected_output == Some(t@),
    {
        opt_as_str(&self.expected_output)
    }

    pub fn agent(&self) -> (r: &str)
        ensures
            r@ == self@.agent,
    {
        self.agent.as_str()
    }

    pub fn depends_on(&self) -> (r: &[String])
        ensures
            strings_view(r@) == self@.depends_on,
    {
        self.depends_on.as_slice()
    }

    pub fn context(&self) -> (r: Option<&str>)
        ensures
            r is Some == self@.context is Some,
            r matches Some(t) ==> self@.context == Some(t@),
    {
        opt_as_str(&self.context)
    }

    pub fn output_format(&self) -> (r: OutputFormat)
        ensures
            r == self@.output_format,
    {
        self.output_format
    }

    /// An equal task, owned separately.
    pub fn duplicate(&self) -> (r: Task)
        ensures
            r@ == self@,
    {
        Task {
            id: self.id.clone(),
            description: self.description.clone(),
            expected_output: clone_opt(&self.expected_output),
            agent: self.agent.clone(),
            depends_on: clone_strings(&self.depends_on),
            context: clone_opt(&self.context),
            output_format: self.output_format,
        }
    }
}

/// Collects the fields of a task before validating them.
#[derive(Debug, Clone)]
pub struct TaskBuilder {
    id: String,
    description: Option<String>,
    expected_output: Option<String>,
    agent: Option<String>,
    depends_on: Vec<String>,
    context: Option<String>,
    output_format: OutputFormat,
}

/// The mathematical view of a [`TaskBuilder`].
pub struct TaskBuilderView {
    pub id: Seq<char>,
    pub description: Option<Seq<char>>,
    pub expected_output: Option<Seq<char>>,
    pub agent: Option<Seq<char>>,
    pub depends_on: Seq<Seq<char>>,
    pub context: Option<Seq<char>>,
    pub output_format: OutputFormat,
}

impl View for TaskBuilder {
    type V = TaskBuilderView;

    closed spec fn view(&self) -> TaskBuilderView {
        TaskBuilderView {
            id: self.id@,
            description: opt_view(self.description),
            expected_output: opt_view(self.expected_output),
            agent: opt_view(self.agent),
            depends_on: strings_view(self.depends_on@),
            context: opt_view(self.context),
            output_format: self.output_format,
        }
    }
}

/// What building a task from `b` gives: the error for a blank id, a missing
/// description or a missing agent, checked in that order, or the task.
pub open spec fn task_build_result(b: TaskBuilderView) -> Result<TaskView, CrewErrorView> {
    if is_blank(b.id) {
        Err(CrewErrorView::InvalidConfig("task id cannot be empty"@))
    } else if b.description is None {
        Err(CrewErrorView::InvalidConfig("task `"@ + b.id + "` requires a description"@))
    } else if b.agent is None {
        Err(CrewErrorView::InvalidConfig("task `"@ + b.id + "` requires an agent"@))
    } else {
        Ok(
            TaskView {
                id: b.id,
                description: b.description->0,
                expected_output: b.expected_output,
                agent: b.agent->0,
                depends_on: b.depends_on,
                context: b.context,
                output_format: b.output_format,
            },
        )
    }
}

/// The view of a result that holds a task.
pub open spec fn task_result_view(r: Result<Task, CrewError>) -> Result<TaskView, CrewErrorView> {
    match r {
        Ok(t) => Ok(t@),
        Err(e) => Err(e@),
    }
}

impl TaskBuilder {
    pub fn description(self, description: &str) -> (b: TaskBuilder)
        ensures
            b@ == (TaskBuilderView { description: Some(description@), ..self@ }),
    {
        TaskBuilder { description: Some(owned(description)), ..self }
    }

    pub fn expected_output(self, expected_output: &str) -> (b: TaskBuilder)
        ensures
            b@ == (TaskBuilderView { expected_output: Some(expected_output@), ..self@ }),
    {
        TaskBuilder { expected_output: Some(owned(expected_output)), ..self }
    }

    pub fn agent(self, agent: &str) -> (b: TaskBuilder)
        ensures
            b@ == (TaskBuilderView { agent: Some(agent@), ..self@ }),
    {
        TaskBuilder { agent: Some(owned(agent)), ..self }
    }

    pub fn depends_on(self, depends_on: Vec<String>) -> (b: TaskBuilder)
        ensures
            b@ == (TaskBuilderView { depends_on: strings_view(depends_on@), ..self@ }),
    {
        TaskBuilder { depends_on, ..self }
    }

    pub fn context(self, context: &str) -> (b: TaskBuilder)
        ensures
            b@ == (TaskBuilderView { context: Some(context@), ..self@ }),
    {
        TaskBuilder { context: Some(owned(context)), ..self }
    }

    pub fn output_format(self, output_format: OutputFormat) -> (b: TaskBuilder)
        ensures
            b@ == (TaskBuilderView { output_format, ..self@ }),
    {
        TaskBuilder { output_format, ..self }
    }

    /// Validates the fields and builds the task.
    pub fn build(self) -> (r: Result<Task, CrewError>)
        ensures
            task_result_view(r) == task_build_result(self@),
    {
        if str_is_blank(self.id.as_str()) {
            return Err(CrewError::InvalidConfig(owned("task id cannot be empty")));
        }
        let description = match self.description {
            Some(d) => d,
            None => {
                let mut m = owned("task `");
                push_str(&mut m, self.id.as_str());
                push_str(&mut m, "` requires a description");
                return Err(CrewError::InvalidConfig(m));
            },
        };
        let agent = match self.agent {
            Some(a) => a,
            None => {
                let mut m = owned("task `");
                push_str(&mut m, self.id.as_str());
                push_str(&mut m, "` requires an agent");
                return Err(CrewError::InvalidConfig(m));
            },
        };
        Ok(
            Task {
                id: self.id,
                description,
                expected_output: self.expected_output,
                agent,
                depends_on: self.depends_on,
                context: self.context,
                output_format: self.output_format,
            },
        )
    }
}

} // verus!
