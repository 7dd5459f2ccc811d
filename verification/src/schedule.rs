//! The order in which a crew runs its tasks: every task after the tasks it
//! depends on, found by Kahn's algorithm with a first-in first-out queue.
//!
//! Tasks are keyed by id. Where two tasks share an id, the id stands for the
//! last of them, and the dependencies of both count for it.
use vstd::prelude::*;

use crate::error::{CrewError, CrewErrorView};
use crate::task::{tasks_view, Task, TaskView};
use crate::text::{owned, str_equal};

verus! {

/// The index of the last of the first `k` tasks whose id is `id`, or -1.
pub open spec fn index_upto(tasks: Seq<TaskView>, id: Seq<char>, k: int) -> int
    decreases k,
{
    if k <= 0 {
        -1
    } else if tasks[k - 1].id == id {
        k - 1
    } else {
        index_upto(tasks, id, k - 1)
    }
}

/// The index of the last task whose id is `id`, or -1 when there is none.
pub open spec fn index_of(tasks: Seq<TaskView>, id: Seq<char>) -> int {
    index_upto(tasks, id, tasks.len() as int)
}

/// The task that the id of task `i` stands for.
pub open spec fn rep(tasks: Seq<TaskView>, i: int) -> int {
    index_of(tasks, tasks[i].id)
}

/// Some task has the id `id`.
pub open spec fn has_task(tasks: Seq<TaskView>, id: Seq<char>) -> bool {
    exists|i: int| 0 <= i < tasks.len() && tasks[i].id == id
}

/// The `k`-th dependency of task `t` names no task.
pub open spec fn dep_missing(tasks: Seq<TaskView>, t: int, k: int) -> bool {
    &&& 0 <= t < tasks.len()
    &&& 0 <= k < tasks[t].depends_on.len()
    &&& !has_task(tasks, tasks[t].depends_on[k])
}

/// Dependency `k` of task `t` is the first that names no task, in the order of
/// the tasks and then of their dependencies.
pub open spec fn is_first_missing(tasks: Seq<TaskView>, t: int, k: int) -> bool {
    &&& dep_missing(tasks, t, k)
    &&& forall|t2: int, k2: int|
        (t2 < t || (t2 == t && k2 < k)) ==> !#[trigger] dep_missing(tasks, t2, k2)
}

/// Every dependency names a task.
pub open spec fn deps_complete(tasks: Seq<TaskView>) -> bool {
    forall|t: int, k: int| !#[trigger] dep_missing(tasks, t, k)
}

/// How many of `deps` name the task that `r` stands for.
pub open spec fn count_targets(tasks: Seq<TaskView>, deps: Seq<Seq<char>>, r: int) -> nat
    decreases deps.len(),
{
    if deps.len() == 0 {
        0
    } else {
        count_targets(tasks, deps.drop_last(), r) + if index_of(tasks, deps.last()) == r {
            1nat
        } else {
            0nat
        }
    }
}

/// The number of dependencies, among the first `k` tasks, of tasks whose id
/// stands for `r`.
pub open spec fn indegree_upto(tasks: Seq<TaskView>, r: int, k: int) -> nat
    decreases k,
{
    if k <= 0 {
        0
    } else {
        indegree_upto(tasks, r, k - 1) + if rep(tasks, k - 1) == r {
            tasks[k - 1].depends_on.len()
        } else {
            0
        }
    }
}

/// The number of dependencies of the tasks whose id stands for `r`.
pub open spec fn indegree(tasks: Seq<TaskView>, r: int) -> nat {
    indegree_upto(tasks, r, tasks.len() as int)
}

/// The dependents of `r` among the first `k` tasks: each dependent once for
/// each of its dependencies that names `r`, in task order.
pub open spec fn children_upto(tasks: Seq<TaskView>, r: int, k: int) -> Seq<int>
    decreases k,
{
    if k <= 0 {
        Seq::empty()
    } else {
        children_upto(tasks, r, k - 1) + Seq::new(
            count_targets(tasks, tasks[k - 1].depends_on, r),
            |_i: int| rep(tasks, k - 1),
        )
    }
}

/// The dependents of `r`, each once for each of its dependencies that names `r`.
pub open spec fn children(tasks: Seq<TaskView>, r: int) -> Seq<int> {
    children_upto(tasks, r, tasks.len() as int)
}

/// The tasks, among the first `k`, whose id stands for a task with no
/// dependency, in task order.
pub open spec fn initial_queue_upto(tasks: Seq<TaskView>, k: int) -> Seq<int>
    decreases k,
{
    if k <= 0 {
        Seq::empty()
    } else {
        initial_queue_upto(tasks, k - 1) + if indegree(tasks, rep(tasks, k - 1)) == 0 {
            seq![rep(tasks, k - 1)]
        } else {
            Seq::empty()
        }
    }
}

/// The queue that the ordering starts from.
pub open spec fn initial_queue(tasks: Seq<TaskView>) -> Seq<int> {
    initial_queue_upto(tasks, tasks.len() as int)
}

/// The number of unmet dependencies of each task at the start.
pub open spec fn initial_degrees(tasks: Seq<TaskView>) -> Seq<int> {
    Seq::new(tasks.len(), |r: int| indegree(tasks, r) as int)
}

/// A state of the ordering: the tasks ordered so far, the queue of tasks that
/// are ready, the unmet dependencies of each task, and whether a count of unmet
/// dependencies was decremented below zero.
pub struct KahnState {
    pub ordered: Seq<int>,
    pub queue: Seq<int>,
    pub deg: Seq<int>,
    pub underflow: bool,
}

/// The state before the first step.
pub open spec fn kahn_init(tasks: Seq<TaskView>) -> KahnState {
    KahnState {
        ordered: Seq::empty(),
        queue: initial_queue(tasks),
        deg: initial_degrees(tasks),
        underflow: false,
    }
}

/// Marks the first `j` of `kids` as having one dependency met each; a kid
/// whose count reaches zero joins the queue.
pub open spec fn relax(deg: Seq<int>, queue: Seq<int>, underflow: bool, kids: Seq<int>, j: int) -> (
    Seq<int>,
    Seq<int>,
    bool,
)
    decreases j,
{
    if j <= 0 {
        (deg, queue, underflow)
    } else {
        let (d, q, u) = relax(deg, queue, underflow, kids, j - 1);
        let c = kids[j - 1];
        let d2 = d.update(c, d[c] - 1);
        let u2 = u || d[c] == 0;
        if d2[c] == 0 {
            (d2, q.push(c), u2)
        } else {
            (d2, q, u2)
        }
    }
}

/// One step: the task at the head of the queue is ordered, and its dependents
/// have one dependency met each.
pub open spec fn kahn_step(tasks: Seq<TaskView>, st: KahnState) -> KahnState {
    if st.queue.len() == 0 {
        st
    } else {
        let u = st.queue[0];
        let kids = children(tasks, u);
        let (d, q, un) = relax(st.deg, st.queue.drop_first(), st.underflow, kids, kids.len() as int);
        KahnState { ordered: st.ordered.push(u), queue: q, deg: d, underflow: un }
    }
}

/// The state after `m` steps.
pub open spec fn kahn_iter(tasks: Seq<TaskView>, m: nat) -> KahnState
    decreases m,
{
    if m == 0 {
        kahn_init(tasks)
    } else {
        kahn_step(tasks, kahn_iter(tasks, (m - 1) as nat))
    }
}

/// The sum of a sequence of integers.
pub open spec fn sum(s: Seq<int>) -> int
    decreases s.len(),
{
    if s.len() == 0 {
        0
    } else {
        sum(s.drop_last()) + s.last()
    }
}

/// A number of steps after which the queue is empty.
pub open spec fn kahn_fuel(tasks: Seq<TaskView>) -> nat {
    (initial_queue(tasks).len() + sum(initial_degrees(tasks))) as nat
}

/// The state once the queue is empty.
pub open spec fn kahn_final(tasks: Seq<TaskView>) -> KahnState {
    kahn_iter(tasks, kahn_fuel(tasks))
}

/// The total number of dependencies of all tasks.
pub open spec fn total_deps_upto(tasks: Seq<TaskView>, k: int) -> nat
    decreases k,
{
    if k <= 0 {
        0
    } else {
        total_deps_upto(tasks, k - 1) + tasks[k - 1].depends_on.len()
    }
}

/// The total number of dependencies of all tasks.
pub open spec fn total_deps(tasks: Seq<TaskView>) -> nat {
    total_deps_upto(tasks, tasks.len() as int)
}

/// Ordering the tasks would decrement a count of unmet dependencies below zero,
/// which panics. This can only happen where two tasks share an id: that id then
/// enters the queue once per task, and each time its dependents lose a count.
pub open spec fn ordering_panics(tasks: Seq<TaskView>) -> bool {
    deps_complete(tasks) && kahn_final(tasks).underflow
}

/// What ordering the tasks gives: the first dependency that names no task, or
/// the tasks in the order in which Kahn's algorithm takes them from its queue,
/// or, where not every task was taken, a cycle.
pub open spec fn topological_result(tasks: Seq<TaskView>) -> Result<Seq<int>, CrewErrorView> {
    if !deps_complete(tasks) {
        let (t, k) = choose|t: int, k: int| is_first_missing(tasks, t, k);
        Err(
            CrewErrorView::MissingDependency {
                task: tasks[t].id,
                dependency: tasks[t].depends_on[k],
            },
        )
    } else if kahn_final(tasks).ordered.len() == tasks.len() {
        Ok(kahn_final(tasks).ordered)
    } else {
        Err(CrewErrorView::CyclicTaskGraph)
    }
}

/// The integers of a sequence of indices.
pub open spec fn ints(s: Seq<usize>) -> Seq<int> {
    s.map_values(|x: usize| x as int)
}

/// The view of an ordering result.
pub open spec fn order_result_view(r: Result<Vec<usize>, CrewError>) -> Result<Seq<int>, CrewErrorView> {
    match r {
        Ok(v) => Ok(ints(v@)),
        Err(e) => Err(e@),
    }
}

// ---------------------------------------------------------------------------
// Lemmas on the definitions above.

proof fn lemma_index_upto(tasks: Seq<TaskView>, id: Seq<char>, k: int)
    requires
        0 <= k <= tasks.len(),
    ensures
        -1 <= index_upto(tasks, id, k) < k,
        index_upto(tasks, id, k) >= 0 ==> tasks[index_upto(tasks, id, k)].id == id,
        index_upto(tasks, id, k) == -1 <==> forall|i: int| 0 <= i < k ==> tasks[i].id != id,
        forall|i: int| index_upto(tasks, id, k) < i < k ==> tasks[i].id != id,
    decreases k,
{
    if k > 0 {
        lemma_index_upto(tasks, id, k - 1);
    }
}

proof fn lemma_index_of(tasks: Seq<TaskView>, id: Seq<char>)
    ensures
        -1 <= index_of(tasks, id) < tasks.len(),
        index_of(tasks, id) >= 0 ==> tasks[index_of(tasks, id)].id == id,
        index_of(tasks, id) >= 0 <==> has_task(tasks, id),
{
    lemma_index_upto(tasks, id, tasks.len() as int);
}

proof fn lemma_rep(tasks: Seq<TaskView>, i: int)
    requires
        0 <= i < tasks.len(),
    ensures
        i <= rep(tasks, i) < tasks.len(),
        tasks[rep(tasks, i)].id == tasks[i].id,
        rep(tasks, rep(tasks, i)) == rep(tasks, i),
{
    lemma_index_upto(tasks, tasks[i].id, tasks.len() as int);
}

/// The sum changes by the difference at the updated position.
pub proof fn lemma_sum_update(s: Seq<int>, i: int, v: int)
    requires
        0 <= i < s.len(),
    ensures
        sum(s.update(i, v)) == sum(s) - s[i] + v,
    decreases s.len(),
{
    if i < s.len() - 1 {
        assert(s.update(i, v).drop_last() =~= s.drop_last().update(i, v));
        lemma_sum_update(s.drop_last(), i, v);
    } else {
        assert(s.update(i, v).drop_last() =~= s.drop_last());
    }
}

/// A sum of nonnegative integers is nonnegative.
pub proof fn lemma_sum_nonneg(s: Seq<int>)
    requires
        forall|i: int| 0 <= i < s.len() ==> s[i] >= 0,
    ensures
        sum(s) >= 0,
    decreases s.len(),
{
    if s.len() > 0 {
        lemma_sum_nonneg(s.drop_last());
    }
}

proof fn lemma_relax_keeps_underflow(
    deg: Seq<int>,
    queue: Seq<int>,
    underflow: bool,
    kids: Seq<int>,
    j: int,
)
    requires
        underflow,
    ensures
        relax(deg, queue, underflow, kids, j).2,
    decreases j,
{
    if j > 0 {
        lemma_relax_keeps_underflow(deg, queue, underflow, kids, j - 1);
    }
}

proof fn lemma_underflow_monotone(tasks: Seq<TaskView>, a: nat, b: nat)
    requires
        a <= b,
        kahn_iter(tasks, a).underflow,
    ensures
        kahn_iter(tasks, b).underflow,
    decreases b - a,
{
    if a < b {
        lemma_underflow_monotone(tasks, a, (b - 1) as nat);
        let st = kahn_iter(tasks, (b - 1) as nat);
        if st.queue.len() > 0 {
            let kids = children(tasks, st.queue[0]);
            lemma_relax_keeps_underflow(
                st.deg,
                st.queue.drop_first(),
                st.underflow,
                kids,
                kids.len() as int,
            );
        }
    }
}

proof fn lemma_idle_after_empty(tasks: Seq<TaskView>, a: nat, b: nat)
    requires
        a <= b,
        kahn_iter(tasks, a).queue.len() == 0,
    ensures
        kahn_iter(tasks, b) == kahn_iter(tasks, a),
    decreases b - a,
{
    if a < b {
        lemma_idle_after_empty(tasks, a, (b - 1) as nat);
    }
}

proof fn lemma_count_targets_take(tasks: Seq<TaskView>, deps: Seq<Seq<char>>, r: int, k: int)
    requires
        0 <= k < deps.len(),
    ensures
        count_targets(tasks, deps.take(k + 1), r) == count_targets(tasks, deps.take(k), r) + if index_of(
            tasks,
            deps[k],
        ) == r {
            1nat
        } else {
            0nat
        },
{
    assert(deps.take(k + 1).drop_last() =~= deps.take(k));
}

// ---------------------------------------------------------------------------
// Executable ordering.

/// The index of the last task whose id is `id`.
pub fn find_task_index(tasks: &Vec<Task>, id: &str) -> (r: Option<usize>)
    ensures
        r matches Some(i) ==> i as int == index_of(tasks_view(tasks@), id@) && i < tasks.len(),
        r is None ==> index_of(tasks_view(tasks@), id@) == -1,
{
    let ghost tv = tasks_view(tasks@);
    let mut k: usize = tasks.len();
    while k > 0
        invariant
            k <= tasks.len(),
            tv == tasks_view(tasks@),
            index_of(tv, id@) == index_upto(tv, id@, k as int),
        decreases k,
    {
        if str_equal(tasks[k - 1].id(), id) {
            return Some(k - 1);
        }
        k = k - 1;
    }
    None
}

/// The first dependency, in task order and then dependency order, that names
/// no task.
fn first_missing_dependency(tasks: &Vec<Task>) -> (r: Option<(usize, usize)>)
    ensures
        r matches Some((t, k)) ==> is_first_missing(tasks_view(tasks@), t as int, k as int) && t
            < tasks.len() && k < tasks@[t as int]@.depends_on.len(),
        r is None ==> deps_complete(tasks_view(tasks@)),
{
    let ghost tv = tasks_view(tasks@);
    let mut t: usize = 0;
    while t < tasks.len()
        invariant
            t <= tasks.len(),
            tv == tasks_view(tasks@),
            forall|t2: int, k2: int| t2 < t ==> !#[trigger] dep_missing(tv, t2, k2),
        decreases tasks.len() - t,
    {
        let deps = tasks[t].depends_on();
        let mut k: usize = 0;
        while k < deps.len()
            invariant
                t < tasks.len(),
                k <= deps@.len(),
                tv == tasks_view(tasks@),
                crate::text::strings_view(deps@) == tv[t as int].depends_on,
                forall|t2: int, k2: int|
                    (t2 < t || (t2 == t && k2 < k)) ==> !#[trigger] dep_missing(tv, t2, k2),
            decreases deps.len() - k,
        {
            let found = find_task_index(tasks, deps[k].as_str());
            proof {
                lemma_index_of(tv, deps@[k as int]@);
            }
            if found.is_none() {
                return Some((t, k));
            }
            k = k + 1;
        }
        t = t + 1;
    }
    None
}

proof fn lemma_children_bounded(tasks: Seq<TaskView>, r: int, k: int)
    requires
        0 <= k <= tasks.len(),
    ensures
        forall|y: int|
            0 <= y < children_upto(tasks, r, k).len() ==> 0 <= #[trigger] children_upto(tasks, r, k)[y]
                < tasks.len(),
    decreases k,
{
    if k > 0 {
        lemma_children_bounded(tasks, r, k - 1);
        lemma_rep(tasks, k - 1);
        let prev = children_upto(tasks, r, k - 1);
        let tail = Seq::new(count_targets(tasks, tasks[k - 1].depends_on, r), |_i: int| rep(tasks, k - 1));
        assert(children_upto(tasks, r, k) == prev + tail);
        assert forall|y: int| 0 <= y < (prev + tail).len() implies 0 <= #[trigger] (prev + tail)[y] < tasks.len() by {
            if y >= prev.len() {
                assert((prev + tail)[y] == tail[y - prev.len()]);
            }
        }
    }
}

proof fn lemma_total_deps_monotone(tasks: Seq<TaskView>, a: int, b: int)
    requires
        a <= b,
    ensures
        total_deps_upto(tasks, a) <= total_deps_upto(tasks, b),
    decreases b - a,
{
    if a < b {
        lemma_total_deps_monotone(tasks, a, b - 1);
    }
}

proof fn lemma_relax_underflow_monotone(
    deg: Seq<int>,
    queue: Seq<int>,
    underflow: bool,
    kids: Seq<int>,
    a: int,
    b: int,
)
    requires
        a <= b,
        relax(deg, queue, underflow, kids, a).2,
    ensures
        relax(deg, queue, underflow, kids, b).2,
    decreases b - a,
{
    if a < b {
        lemma_relax_underflow_monotone(deg, queue, underflow, kids, a, b - 1);
    }
}

/// The dependency counts and dependents of every task.
fn build_graph(tasks: &Vec<Task>, reps: &Vec<usize>) -> (r: (Vec<usize>, Vec<Vec<usize>>))
    requires
        deps_complete(tasks_view(tasks@)),
        total_deps(tasks_view(tasks@)) <= usize::MAX,
        reps@.len() == tasks@.len(),
        forall|j: int| 0 <= j < tasks@.len() ==> #[trigger] reps@[j] as int == rep(tasks_view(tasks@), j),
    ensures
        r.0@.len() == tasks@.len(),
        r.1@.len() == tasks@.len(),
        forall|x: int| 0 <= x < tasks@.len() ==> #[trigger] r.0@[x] == indegree(tasks_view(tasks@), x),
        forall|x: int|
            0 <= x < tasks@.len() ==> ints(#[trigger] r.1@[x]@) == children(tasks_view(tasks@), x),
{
    let ghost tv = tasks_view(tasks@);
    let n = tasks.len();
    let mut deg: Vec<usize> = Vec::new();
    let mut kids: Vec<Vec<usize>> = Vec::new();
    let mut i: usize = 0;
    while i < n
        invariant
            i <= n,
            deg@.len() == i,
            kids@.len() == i,
            forall|j: int| 0 <= j < i ==> #[trigger] deg@[j] == 0,
            forall|j: int| 0 <= j < i ==> #[trigger] kids@[j]@.len() == 0,
        decreases n - i,
    {
        deg.push(0);
        kids.push(Vec::new());
        i = i + 1;
    }
    assert forall|x: int| 0 <= x < n implies ints(#[trigger] kids@[x]@) == children_upto(tv, x, 0) by {
        assert(ints(kids@[x]@) =~= Seq::empty());
    }
    let mut t: usize = 0;
    while t < n
        invariant
            t <= n == tasks.len(),
            tv == tasks_view(tasks@),
            deps_complete(tv),
            total_deps(tv) <= usize::MAX,
            reps@.len() == n,
            forall|j: int| 0 <= j < n ==> #[trigger] reps@[j] as int == rep(tv, j),
            deg@.len() == n,
            kids@.len() == n,
            forall|x: int| 0 <= x < n ==> #[trigger] deg@[x] == indegree_upto(tv, x, t as int),
            forall|x: int|
                0 <= x < n ==> ints(#[trigger] kids@[x]@) == children_upto(tv, x, t as int),
            forall|x: int| 0 <= x < n ==> indegree_upto(tv, x, t as int) <= total_deps_upto(tv, t as int),
        decreases n - t,
    {
        let rt = reps[t];
        proof {
            lemma_rep(tv, t as int);
            lemma_total_deps_monotone(tv, t + 1, n as int);
        }
        let deps = tasks[t].depends_on();
        let ghost dv = tv[t as int].depends_on;
        let mut k: usize = 0;
        while k < deps.len()
            invariant
                t < n == tasks.len(),
                k <= deps@.len(),
                tv == tasks_view(tasks@),
                deps_complete(tv),
                crate::text::strings_view(deps@) == dv,
                dv == tv[t as int].depends_on,
                rt as int == rep(tv, t as int),
                0 <= rt < n,
                total_deps_upto(tv, t + 1) <= usize::MAX,
                deg@.len() == n,
                kids@.len() == n,
                forall|x: int|
                    0 <= x < n ==> #[trigger] deg@[x] == indegree_upto(tv, x, t as int) + if x
                        == rt {
                        k as int
                    } else {
                        0
                    },
                forall|x: int|
                    0 <= x < n ==> ints(#[trigger] kids@[x]@) == children_upto(tv, x, t as int)
                        + Seq::new(count_targets(tv, dv.take(k as int), x), |_i: int| rep(tv, t as int)),
                forall|x: int| 0 <= x < n ==> indegree_upto(tv, x, t as int) <= total_deps_upto(tv, t as int),
            decreases deps.len() - k,
        {
            proof {
                assert(!dep_missing(tv, t as int, k as int));
                lemma_index_of(tv, dv[k as int]);
                lemma_count_targets_take(tv, dv, 0, k as int);
            }
            let d = match find_task_index(tasks, deps[k].as_str()) {
                Some(d) => d,
                None => 0,
            };
            assert(d as int == index_of(tv, dv[k as int]));
            assert(deg@[rt as int] <= total_deps_upto(tv, t as int) + k);
            deg.set(rt, deg[rt] + 1);
            let ghost old_kids = kids@;
            let mut list = Vec::new();
            std::mem::swap(&mut list, &mut kids[d]);
            list.push(rt);
            std::mem::swap(&mut list, &mut kids[d]);
            proof {
                assert forall|x: int|
                    0 <= x < n implies ints(#[trigger] kids@[x]@) == children_upto(tv, x, t as int)
                    + Seq::new(count_targets(tv, dv.take(k + 1), x), |_i: int| rep(tv, t as int)) by {
                    lemma_count_targets_take(tv, dv, x, k as int);
                    if x == d {
                        assert(Seq::new(count_targets(tv, dv.take(k + 1), x), |_i: int| rep(tv, t as int))
                            =~= Seq::new(count_targets(tv, dv.take(k as int), x), |_i: int| rep(tv, t as int)).push(
                            rt as int));
                        assert(ints(kids@[x]@) =~= ints(old_kids[x]@).push(rt as int));
                    } else {
                        assert(kids@[x] == old_kids[x]);
                    }
                }
            }
            k = k + 1;
        }
        proof {
            assert(dv.take(dv.len() as int) =~= dv);
            assert forall|x: int| 0 <= x < n implies #[trigger] indegree_upto(tv, x, t + 1) <= total_deps_upto(tv, t + 1) by {
                assert(indegree_upto(tv, x, t as int) <= total_deps_upto(tv, t as int));
            }
        }
        t = t + 1;
    }
    (deg, kids)
}

/// Kahn's algorithm on tasks whose dependencies all name a task: the tasks in
/// the order taken from the queue, or `None` where a count of unmet
/// dependencies would drop below zero.
fn kahn_order(tasks: &Vec<Task>) -> (r: Option<Vec<usize>>)
    requires
        deps_complete(tasks_view(tasks@)),
        total_deps(tasks_view(tasks@)) <= usize::MAX,
    ensures
        r is None <==> kahn_final(tasks_view(tasks@)).underflow,
        r matches Some(v) ==> ints(v@) == kahn_final(tasks_view(tasks@)).ordered,
{
    let ghost tv = tasks_view(tasks@);
    let n = tasks.len();
    // The task that each task's id stands for.
    let mut reps: Vec<usize> = Vec::new();
    let mut i: usize = 0;
    while i < n
        invariant
            i <= n == tasks.len(),
            tv == tasks_view(tasks@),
            reps@.len() == i,
            forall|j: int| 0 <= j < i ==> #[trigger] reps@[j] as int == rep(tv, j),
        decreases n - i,
    {
        proof {
            lemma_rep(tv, i as int);
        }
        let r = match find_task_index(tasks, tasks[i].id()) {
            Some(r) => r,
            None => i,
        };
        reps.push(r);
        i = i + 1;
    }
    let (mut deg, kids) = build_graph(tasks, &reps);
    // The initial queue.
    let mut q: Vec<usize> = Vec::new();
    i = 0;
    while i < n
        invariant
            i <= n == tasks.len(),
            tv == tasks_view(tasks@),
            reps@.len() == n,
            deg@.len() == n,
            forall|j: int| 0 <= j < n ==> #[trigger] reps@[j] as int == rep(tv, j),
            forall|x: int| 0 <= x < n ==> #[trigger] deg@[x] == indegree(tv, x),
            ints(q@) == initial_queue_upto(tv, i as int),
            forall|j: int| 0 <= j < q@.len() ==> #[trigger] q@[j] < n,
        decreases n - i,
    {
        proof {
            lemma_rep(tv, i as int);
        }
        let r = reps[i];
        if deg[r] == 0 {
            q.push(r);
            assert(ints(q@) =~= initial_queue_upto(tv, i + 1));
        } else {
            assert(ints(q@) =~= initial_queue_upto(tv, i + 1));
        }
        i = i + 1;
    }
    assert(ints(deg@) =~= initial_degrees(tv));
    assert(ints(q@.take(0)) =~= Seq::<int>::empty());
    assert(q@.skip(0) =~= q@);
    let ghost mut steps: nat = 0;
    let mut head: usize = 0;
    proof {
        lemma_sum_nonneg(ints(deg@));
    }
    assert forall|x: int, y: int| 0 <= x < n && 0 <= y < kids@[x]@.len() implies #[trigger] kids@[x]@[y] < n by {
        lemma_children_bounded(tv, x, n as int);
        assert(ints(kids@[x]@)[y] == children(tv, x)[y]);
    }
    while head < q.len()
        invariant
            n == tasks.len(),
            tv == tasks_view(tasks@),
            head <= q@.len(),
            deg@.len() == n,
            kids@.len() == n,
            forall|x: int| 0 <= x < n ==> ints(#[trigger] kids@[x]@) == children(tv, x),
            forall|x: int, y: int|
                0 <= x < n && 0 <= y < kids@[x]@.len() ==> #[trigger] kids@[x]@[y] < n,
            forall|j: int| 0 <= j < q@.len() ==> #[trigger] q@[j] < n,
            kahn_iter(tv, steps) == (KahnState {
                ordered: ints(q@.take(head as int)),
                queue: ints(q@.skip(head as int)),
                deg: ints(deg@),
                underflow: false,
            }),
            steps + (q@.len() - head) + sum(ints(deg@)) <= kahn_fuel(tv),
            sum(ints(deg@)) >= 0,
        decreases (q@.len() - head) + sum(ints(deg@)),
    {
        let ghost st = kahn_iter(tv, steps);
        let ghost deg0 = ints(deg@);
        let ghost q0 = q@;
        let ghost head0 = head;
        let u = q[head];
        head = head + 1;
        let ghost qrest = ints(q@.skip(head as int));
        assert(st.queue.drop_first() =~= qrest);
        assert(st.queue[0] == u as int);
        let ks = &kids[u as usize];
        let ghost kv = children(tv, u as int);
        assert(ints(ks@) == kv);
        let mut j: usize = 0;
        assert(q@.skip(head as int) =~= q@.skip(head as int));
        #[verifier::loop_isolation(false)]
        while j < ks.len()
            invariant
                n == tasks.len(),
                tv == tasks_view(tasks@),
                0 < head <= q@.len(),
                head == head0 + 1,
                deg@.len() == n,
                ints(ks@) == kv,
                j <= ks@.len(),
                forall|y: int| 0 <= y < ks@.len() ==> #[trigger] ks@[y] < n,
                forall|x: int| 0 <= x < q@.len() ==> #[trigger] q@[x] < n,
                q@.take(head as int) == q0.take(head as int),
                relax(deg0, qrest, false, kv, j as int) == (
                    ints(deg@),
                    ints(q@.skip(head as int)),
                    false,
                ),
                (q@.len() - head) + sum(ints(deg@)) <= (q0.len() - head0 - 1) + sum(deg0),
            decreases ks@.len() - j,
        {
            let c = ks[j];
            let ghost dj = ints(deg@);
            let ghost qj = ints(q@.skip(head as int));
            assert(kv[j as int] == c as int);
            if deg[c] == 0 {
                proof {
                    assert(relax(deg0, qrest, false, kv, j + 1).2);
                    lemma_relax_underflow_monotone(deg0, qrest, false, kv, j + 1, kv.len() as int);
                    let next = (steps + 1) as nat;
                    assert(kahn_iter(tv, next) == kahn_step(tv, st));
                    assert(kahn_iter(tv, next).underflow);
                    lemma_underflow_monotone(tv, next, kahn_fuel(tv));
                }
                return None;
            }
            deg.set(c, deg[c] - 1);
            proof {
                assert(ints(deg@) =~= dj.update(c as int, dj[c as int] - 1));
                lemma_sum_update(dj, c as int, dj[c as int] - 1);
            }
            if deg[c] == 0 {
                q.push(c);
                assert(ints(q@.skip(head as int)) =~= qj.push(c as int));
            }
            assert(q@.take(head as int) =~= q0.take(head as int));
            j = j + 1;
        }
        proof {
            assert(ints(q@.take(head as int)) =~= ints(q0.take(head0 as int)).push(u as int));
            steps = steps + 1;
            lemma_sum_nonneg(ints(deg@));
        }
    }
    proof {
        lemma_idle_after_empty(tv, steps, kahn_fuel(tv));
        assert(q@.take(head as int) =~= q@);
    }
    Some(q)
}

proof fn lemma_first_missing_unique(tasks: Seq<TaskView>, t: int, k: int)
    requires
        is_first_missing(tasks, t, k),
    ensures
        !deps_complete(tasks),
        (choose|t2: int, k2: int| is_first_missing(tasks, t2, k2)) == (t, k),
{
    assert(dep_missing(tasks, t, k));
    let (t2, k2) = choose|t2: int, k2: int| is_first_missing(tasks, t2, k2);
    assert(is_first_missing(tasks, t2, k2));
    if t2 < t || (t2 == t && k2 < k) {
        assert(!dep_missing(tasks, t2, k2));
    } else if t < t2 || (t == t2 && k < k2) {
        assert(!dep_missing(tasks, t, k));
    }
}

/// Every entry of `s` is an index below `n`.
pub open spec fn in_range(s: Seq<int>, n: int) -> bool {
    forall|i: int| 0 <= i < s.len() ==> 0 <= #[trigger] s[i] < n
}

proof fn lemma_children_range(tasks: Seq<TaskView>, r: int, k: int)
    requires
        0 <= k <= tasks.len(),
    ensures
        in_range(children_upto(tasks, r, k), tasks.len() as int),
    decreases k,
{
    if k > 0 {
        lemma_children_range(tasks, r, k - 1);
        lemma_rep(tasks, k - 1);
        let a = children_upto(tasks, r, k - 1);
        let b = Seq::new(count_targets(tasks, tasks[k - 1].depends_on, r), |_i: int| rep(tasks, k - 1));
        assert forall|i: int| 0 <= i < (a + b).len() implies 0 <= #[trigger] (a + b)[i] < tasks.len() by {
            if i >= a.len() {
                assert((a + b)[i] == b[i - a.len()]);
            }
        }
    }
}

proof fn lemma_initial_queue_range(tasks: Seq<TaskView>, k: int)
    requires
        0 <= k <= tasks.len(),
    ensures
        in_range(initial_queue_upto(tasks, k), tasks.len() as int),
    decreases k,
{
    if k > 0 {
        lemma_initial_queue_range(tasks, k - 1);
        lemma_rep(tasks, k - 1);
    }
}

proof fn lemma_relax_range(deg: Seq<int>, queue: Seq<int>, underflow: bool, kids: Seq<int>, j: int, n: int)
    requires
        in_range(queue, n),
        in_range(kids, n),
        0 <= j <= kids.len(),
    ensures
        in_range(relax(deg, queue, underflow, kids, j).1, n),
    decreases j,
{
    if j > 0 {
        lemma_relax_range(deg, queue, underflow, kids, j - 1, n);
        assert(0 <= kids[j - 1] < n);
    }
}

proof fn lemma_iter_range(tasks: Seq<TaskView>, m: nat)
    ensures
        in_range(kahn_iter(tasks, m).ordered, tasks.len() as int),
        in_range(kahn_iter(tasks, m).queue, tasks.len() as int),
    decreases m,
{
    let n = tasks.len() as int;
    if m == 0 {
        lemma_initial_queue_range(tasks, n);
    } else {
        lemma_iter_range(tasks, (m - 1) as nat);
        let st = kahn_iter(tasks, (m - 1) as nat);
        if st.queue.len() > 0 {
            let u = st.queue[0];
            lemma_children_range(tasks, u, n);
            let kids = children(tasks, u);
            lemma_relax_range(st.deg, st.queue.drop_first(), st.underflow, kids, kids.len() as int, n);
            assert(in_range(st.ordered.push(u), n)) by {
                assert forall|i: int| 0 <= i < st.ordered.push(u).len() implies 0 <= #[trigger] st.ordered.push(
                    u,
                )[i] < n by {
                    if i < st.ordered.len() {
                        assert(st.ordered.push(u)[i] == st.ordered[i]);
                    }
                }
            }
        }
    }
}

/// An order that the ordering gives has one entry per task, each the index of a task.
pub proof fn lemma_order_in_range(tasks: Seq<TaskView>)
    ensures
        topological_result(tasks) matches Ok(order) ==> order.len() == tasks.len() && in_range(
            order,
            tasks.len() as int,
        ),
{
    lemma_iter_range(tasks, kahn_fuel(tasks));
}

/// Orders the tasks so that each comes after the tasks it depends on: the
/// indices of the tasks in the order Kahn's algorithm takes them, or the first
/// dependency that names no task, or a cycle.
pub fn topological_tasks(tasks: &Vec<Task>) -> (r: Result<Vec<usize>, CrewError>)
    requires
        !ordering_panics(tasks_view(tasks@)),
        total_deps(tasks_view(tasks@)) <= usize::MAX,
    ensures
        order_result_view(r) == topological_result(tasks_view(tasks@)),
{
    let ghost tv = tasks_view(tasks@);
    match first_missing_dependency(tasks) {
        Some((t, k)) => {
            proof {
                lemma_first_missing_unique(tv, t as int, k as int);
            }
            let deps = tasks[t].depends_on();
            assert(deps@[k as int]@ == tv[t as int].depends_on[k as int]);
            Err(
                CrewError::MissingDependency {
                    task: owned(tasks[t].id()),
                    dependency: deps[k].clone(),
                },
            )
        },
        None => {
            match kahn_order(tasks) {
                Some(order) => {
                    if order.len() == tasks.len() {
                        Ok(order)
                    } else {
                        Err(CrewError::CyclicTaskGraph)
                    }
                },
                None => Err(CrewError::CyclicTaskGraph),
            }
        },
    }
}

/// Whether ordering the tasks would decrement a count below zero and panic.
pub fn ordering_would_panic(tasks: &Vec<Task>) -> (b: bool)
    requires
        total_deps(tasks_view(tasks@)) <= usize::MAX,
    ensures
        b == ordering_panics(tasks_view(tasks@)),
{
    match first_missing_dependency(tasks) {
        Some(_) => false,
        None => kahn_order(tasks).is_none(),
    }
}

} // verus!
