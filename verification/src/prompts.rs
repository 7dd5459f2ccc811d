//! The prompts that agents and the manager are sent.
use vstd::prelude::*;

use crate::agent::{Agent, AgentView};
use crate::crew::{outcomes_view, KickoffInput, KickoffInputView, TaskOutcome, TaskOutcomeView};
use crate::task::{output_format_name, Task, TaskView};
use crate::text::{join, join_strings, occurs_at, owned, push_str, strings_view};
use crate::tool::{tools_view, FnToolView};

verus! {

/// `o`'s text, or `d` where there is none.
pub open spec fn or_text(o: Option<Seq<char>>, d: Seq<char>) -> Seq<char> {
    match o {
        Some(t) => t,
        None => d,
    }
}

/// `true` or `false`, as `bool` prints.
pub open spec fn bool_text(b: bool) -> Seq<char> {
    if b {
        "true"@
    } else {
        "false"@
    }
}

/// The lines `text` or `fallback` where there are none, joined with `sep`.
pub open spec fn lines_or(lines: Seq<Seq<char>>, sep: Seq<char>, fallback: Seq<char>) -> Seq<char> {
    if lines.len() == 0 {
        fallback
    } else {
        join(lines, sep)
    }
}

/// The line that lists one tool.
pub open spec fn tool_line(t: FnToolView) -> Seq<char> {
    "- "@ + t.0 + ": "@ + t.1
}

/// The system prompt of an agent: who it is, the tools it has, and how to call
/// a tool or give a final answer.
pub open spec fn agent_system_prompt(a: AgentView) -> Seq<char> {
    "You are a crew member inside a Rust-native CrewAI-style runtime.\nRole: "@ + a.role + "\nGoal: "@
        + a.goal + "\nBackstory: "@ + or_text(a.backstory, "n/a"@) + "\nDelegation allowed: "@
        + bool_text(a.allow_delegation) + "\n\nAvailable tools:\n"@ + lines_or(
        a.tools.map_values(|t: FnToolView| tool_line(t)),
        "\n"@,
        "No tools are registered."@,
    )
        + "\n\nWhen you need a tool, respond with exactly one XML tag:\n<tool_call>{\"tool\":\"tool_name\",\"input\":\"what to pass to the tool\"}</tool_call>\nWhen you are done, either reply normally or wrap the final answer with:\n<final_answer>your final answer</final_answer>\nBe concrete, structured, and concise."@
}

/// The line that gives one kickoff context entry.
pub open spec fn context_line(p: (Seq<char>, Seq<char>)) -> Seq<char> {
    "- "@ + p.0 + ": "@ + p.1
}

/// The section that gives one finished dependency's output.
pub open spec fn dependency_section(o: TaskOutcomeView) -> Seq<char> {
    "### "@ + o.task_id + "\n"@ + o.output
}

/// The prompt that asks an agent to carry out a task.
pub open spec fn task_prompt(
    t: TaskView,
    k: KickoffInputView,
    deps: Seq<TaskOutcomeView>,
    brief: Option<Seq<char>>,
) -> Seq<char> {
    "Crew goal:\n"@ + k.goal + "\n\nTask id: "@ + t.id + "\nTask description:\n"@ + t.description
        + "\n\nExpected output:\n"@ + or_text(t.expected_output, "not specified"@)
        + "\n\nPreferred output format: "@ + output_format_name(t.output_format) + "\n\nTask context:\n"@
        + or_text(t.context, "none"@) + "\n\nManager brief:\n"@ + or_text(brief, "none"@)
        + "\n\nKickoff context:\n"@ + lines_or(
        k.context.map_values(|p: (Seq<char>, Seq<char>)| context_line(p)),
        "\n"@,
        "none"@,
    ) + "\n\nCompleted dependency outputs:\n"@ + lines_or(
        deps.map_values(|o: TaskOutcomeView| dependency_section(o)),
        "\n\n"@,
        "none"@,
    )
}

/// The line that sums up one finished dependency for the manager.
pub open spec fn dependency_summary_line(o: TaskOutcomeView) -> Seq<char> {
    "- "@ + o.task_id + " by "@ + o.agent_id + ": "@ + o.output
}

/// The prompt that asks the manager to brief the next task.
pub open spec fn manager_prompt(t: TaskView, deps: Seq<TaskOutcomeView>, k: KickoffInputView) -> Seq<char> {
    "Crew goal:\n"@ + k.goal + "\n\nUpcoming task: "@ + t.id + "\nDescription: "@ + t.description
        + "\nExpected output: "@ + or_text(t.expected_output, "not specified"@) + "\n\nCompleted work:\n"@
        + lines_or(
        deps.map_values(|o: TaskOutcomeView| dependency_summary_line(o)),
        "\n"@,
        "none"@,
    )
        + "\n\nRespond with a short manager brief that sharpens scope, reduces drift, and mentions any risk to avoid."@
}

/// The system prompt of the manager.
pub open spec fn manager_system_prompt(m: AgentView) -> Seq<char> {
    "You are the crew manager.\nRole: "@ + m.role + "\nGoal: "@ + m.goal + "\nBackstory: "@ + or_text(
        m.backstory,
        "n/a"@,
    ) + "\nReturn a concise operating brief for the next task."@
}

/// `needle` occurs in `hay`.
pub open spec fn contains_text(hay: Seq<char>, needle: Seq<char>) -> bool {
    exists|i: int| #[trigger] occurs_at(hay, needle, i)
}

/// A task's prompt hands over the manager's brief, whole, under its own
/// heading, right before the kickoff context.
pub proof fn law_task_prompt_shows_brief(
    t: TaskView,
    k: KickoffInputView,
    deps: Seq<TaskOutcomeView>,
    brief: Seq<char>,
)
    ensures
        contains_text(
            task_prompt(t, k, deps, Some(brief)),
            "\n\nManager brief:\n"@ + brief + "\n\nKickoff context:\n"@,
        ),
{
    let pre = "Crew goal:\n"@ + k.goal + "\n\nTask id: "@ + t.id + "\nTask description:\n"@ + t.description
        + "\n\nExpected output:\n"@ + or_text(t.expected_output, "not specified"@)
        + "\n\nPreferred output format: "@ + output_format_name(t.output_format) + "\n\nTask context:\n"@
        + or_text(t.context, "none"@);
    let needle = "\n\nManager brief:\n"@ + brief + "\n\nKickoff context:\n"@;
    let post = lines_or(
        k.context.map_values(|p: (Seq<char>, Seq<char>)| context_line(p)),
        "\n"@,
        "none"@,
    ) + "\n\nCompleted dependency outputs:\n"@ + lines_or(
        deps.map_values(|o: TaskOutcomeView| dependency_section(o)),
        "\n\n"@,
        "none"@,
    );
    let prompt = task_prompt(t, k, deps, Some(brief));
    assert(prompt =~= pre + needle + post);
    let i = pre.len() as int;
    assert(prompt.subrange(i, i + needle.len()) =~= needle);
    assert(occurs_at(prompt, needle, i));
}

proof fn lemma_take_map_push<A, B>(s: Seq<A>, f: spec_fn(A) -> B, i: int)
    requires
        0 <= i < s.len(),
    ensures
        s.take(i + 1).map_values(f) == s.take(i).map_values(f).push(f(s[i])),
{
    assert(s.take(i + 1).map_values(f) =~= s.take(i).map_values(f).push(f(s[i])));
}

fn push_opt_or(out: &mut String, o: Option<&str>, d: &str)
    ensures
        final(out)@ == old(out)@ + or_text(
            match o {
                Some(t) => Some(t@),
                None => None,
            },
            d@,
        ),
{
    match o {
        Some(t) => push_str(out, t),
        None => push_str(out, d),
    }
}

/// Joins `lines` with `sep`, or gives `fallback` where there are none.
fn join_or(lines: &Vec<String>, sep: &str, fallback: &str) -> (r: String)
    ensures
        r@ == lines_or(strings_view(lines@), sep@, fallback@),
{
    if lines.len() == 0 {
        owned(fallback)
    } else {
        join_strings(lines, sep)
    }
}

/// The system prompt of an agent.
pub fn render_agent_system_prompt(agent: &Agent) -> (r: String)
    ensures
        r@ == agent_system_prompt(agent@),
{
    let tools = agent.tools();
    let ghost tv = tools_view(tools@);
    let ghost f = |t: FnToolView| tool_line(t);
    let mut lines: Vec<String> = Vec::new();
    let mut i: usize = 0;
    while i < tools.len()
        invariant
            i <= tools@.len(),
            tv == tools_view(tools@),
            f == (|t: FnToolView| tool_line(t)),
            strings_view(lines@) == tv.take(i as int).map_values(f),
        decreases tools.len() - i,
    {
        let mut line = owned("- ");
        push_str(&mut line, tools[i].name());
        push_str(&mut line, ": ");
        push_str(&mut line, tools[i].description());
        let ghost before = strings_view(lines@);
        lines.push(line);
        assert(strings_view(lines@) =~= before.push(line@));
        proof {
            lemma_take_map_push(tv, f, i as int);
        }
        i = i + 1;
    }
    assert(tv.take(tv.len() as int) =~= tv);
    let listed = join_or(&lines, "\n", "No tools are registered.");
    let mut out = owned("You are a crew member inside a Rust-native CrewAI-style runtime.\nRole: ");
    push_str(&mut out, agent.role());
    push_str(&mut out, "\nGoal: ");
    push_str(&mut out, agent.goal());
    push_str(&mut out, "\nBackstory: ");
    push_opt_or(&mut out, agent.backstory(), "n/a");
    push_str(&mut out, "\nDelegation allowed: ");
    if agent.allow_delegation() {
        push_str(&mut out, "true");
    } else {
        push_str(&mut out, "false");
    }
    push_str(&mut out, "\n\nAvailable tools:\n");
    push_str(&mut out, listed.as_str());
    push_str(
        &mut out,
        "\n\nWhen you need a tool, respond with exactly one XML tag:\n<tool_call>{\"tool\":\"tool_name\",\"input\":\"what to pass to the tool\"}</tool_call>\nWhen you are done, either reply normally or wrap the final answer with:\n<final_answer>your final answer</final_answer>\nBe concrete, structured, and concise.",
    );
    out
}

/// The prompt that asks an agent to carry out a task.
pub fn render_task_prompt(
    task: &Task,
    kickoff: &KickoffInput,
    dependencies: &[TaskOutcome],
    manager_brief: Option<&str>,
) -> (r: String)
    ensures
        r@ == task_prompt(
            task@,
            kickoff@,
            outcomes_view(dependencies@),
            match manager_brief {
                Some(t) => Some(t@),
                None => None,
            },
        ),
{
    let context = kickoff.context();
    let ghost cv = kickoff@.context;
    let ghost f = |p: (Seq<char>, Seq<char>)| context_line(p);
    let mut lines: Vec<String> = Vec::new();
    let mut i: usize = 0;
    while i < context.len()
        invariant
            i <= context@.len(),
            cv == crate::text::pairs_view(context@),
            f == (|p: (Seq<char>, Seq<char>)| context_line(p)),
            strings_view(lines@) == cv.take(i as int).map_values(f),
        decreases context.len() - i,
    {
        let mut line = owned("- ");
        push_str(&mut line, context[i].0.as_str());
        push_str(&mut line, ": ");
        push_str(&mut line, context[i].1.as_str());
        let ghost before = strings_view(lines@);
        lines.push(line);
        assert(strings_view(lines@) =~= before.push(line@));
        proof {
            lemma_take_map_push(cv, f, i as int);
        }
        i = i + 1;
    }
    assert(cv.take(cv.len() as int) =~= cv);
    let kickoff_context = join_or(&lines, "\n", "none");
    let ghost dv = outcomes_view(dependencies@);
    let ghost g = |o: TaskOutcomeView| dependency_section(o);
    let mut sections: Vec<String> = Vec::new();
    let mut j: usize = 0;
    while j < dependencies.len()
        invariant
            j <= dependencies@.len(),
            dv == outcomes_view(dependencies@),
            g == (|o: TaskOutcomeView| dependency_section(o)),
            strings_view(sections@) == dv.take(j as int).map_values(g),
        decreases dependencies.len() - j,
    {
        let mut section = owned("### ");
        push_str(&mut section, dependencies[j].task_id.as_str());
        push_str(&mut section, "\n");
        push_str(&mut section, dependencies[j].output.as_str());
        let ghost before = strings_view(sections@);
        sections.push(section);
        assert(strings_view(sections@) =~= before.push(section@));
        proof {
            lemma_take_map_push(dv, g, j as int);
        }
        j = j + 1;
    }
    assert(dv.take(dv.len() as int) =~= dv);
    let dependency_context = join_or(&sections, "\n\n", "none");
    let format = task.output_format().name();
    let mut out = owned("Crew goal:\n");
    push_str(&mut out, kickoff.goal());
    push_str(&mut out, "\n\nTask id: ");
    push_str(&mut out, task.id());
    push_str(&mut out, "\nTask description:\n");
    push_str(&mut out, task.description());
    push_str(&mut out, "\n\nExpected output:\n");
    push_opt_or(&mut out, task.expected_output(), "not specified");
    push_str(&mut out, "\n\nPreferred output format: ");
    push_str(&mut out, format.as_str());
    push_str(&mut out, "\n\nTask context:\n");
    push_opt_or(&mut out, task.context(), "none");
    push_str(&mut out, "\n\nManager brief:\n");
    push_opt_or(&mut out, manager_brief, "none");
    push_str(&mut out, "\n\nKickoff context:\n");
    push_str(&mut out, kickoff_context.as_str());
    push_str(&mut out, "\n\nCompleted dependency outputs:\n");
    push_str(&mut out, dependency_context.as_str());
    out
}

/// The prompt that asks the manager to brief the next task.
pub fn render_manager_prompt(task: &Task, dependencies: &[TaskOutcome], kickoff: &KickoffInput) -> (r:
    String)
    ensures
        r@ == manager_prompt(task@, outcomes_view(dependencies@), kickoff@),
{
    let ghost dv = outcomes_view(dependencies@);
    let ghost g = |o: TaskOutcomeView| dependency_summary_line(o);
    let mut lines: Vec<String> = Vec::new();
    let mut j: usize = 0;
    while j < dependencies.len()
        invariant
            j <= dependencies@.len(),
            dv == outcomes_view(dependencies@),
            g == (|o: TaskOutcomeView| dependency_summary_line(o)),
            strings_view(lines@) == dv.take(j as int).map_values(g),
        decreases dependencies.len() - j,
    {
        let mut line = owned("- ");
        push_str(&mut line, dependencies[j].task_id.as_str());
        push_str(&mut line, " by ");
        push_str(&mut line, dependencies[j].agent_id.as_str());
        push_str(&mut line, ": ");
        push_str(&mut line, dependencies[j].output.as_str());
        let ghost before = strings_view(lines@);
        lines.push(line);
        assert(strings_view(lines@) =~= before.push(line@));
        proof {
            lemma_take_map_push(dv, g, j as int);
        }
        j = j + 1;
    }
    assert(dv.take(dv.len() as int) =~= dv);
    let summary = join_or(&lines, "\n", "none");
    let mut out = owned("Crew goal:\n");
    push_str(&mut out, kickoff.goal());
    push_str(&mut out, "\n\nUpcoming task: ");
    push_str(&mut out, task.id());
    push_str(&mut out, "\nDescription: ");
    push_str(&mut out, task.description());
    push_str(&mut out, "\nExpected output: ");
    push_opt_or(&mut out, task.expected_output(), "not specified");
    push_str(&mut out, "\n\nCompleted work:\n");
    push_str(&mut out, summary.as_str());
    push_str(
        &mut out,
        "\n\nRespond with a short manager brief that sharpens scope, reduces drift, and mentions any risk to avoid.",
    );
    out
}

/// The system prompt of the manager.
pub fn render_manager_system_prompt(manager: &Agent) -> (r: String)
    ensures
        r@ == manager_system_prompt(manager@),
{
    let mut out = owned("You are the crew manager.\nRole: ");
    push_str(&mut out, manager.role());
    push_str(&mut out, "\nGoal: ");
    push_str(&mut out, manager.goal());
    push_str(&mut out, "\nBackstory: ");
    push_opt_or(&mut out, manager.backstory(), "n/a");
    push_str(&mut out, "\nReturn a concise operating brief for the next task.");
    out
}

} // verus!
