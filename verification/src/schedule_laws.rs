//! What the task order promises when task ids are distinct: every task comes
//! once, after the tasks it depends on, and ordering fails with a cycle
//! exactly when some tasks depend on one another in a ring.
use vstd::prelude::*;
use vstd::set_lib::{lemma_int_range, lemma_len_subset, set_int_range};

use crate::error::CrewErrorView;
use crate::schedule::{
    children, children_upto, count_targets, deps_complete, dep_missing, has_task, index_of,
    index_upto, indegree, indegree_upto, initial_degrees, initial_queue, initial_queue_upto,
    kahn_final, kahn_fuel, kahn_init, kahn_iter, kahn_step, ordering_panics, relax, rep, sum,
    topological_result, KahnState,
};
use crate::task::TaskView;

verus! {

/// No two tasks share an id.
pub open spec fn distinct_ids(tasks: Seq<TaskView>) -> bool {
    forall|i: int, j: int|
        0 <= i < tasks.len() && 0 <= j < tasks.len() && i != j ==> tasks[i].id != tasks[j].id
}

/// Dependency `k` of the task at position `p` of `order` names a task placed
/// before position `p`.
pub open spec fn dep_placed_before(tasks: Seq<TaskView>, order: Seq<int>, p: int, k: int) -> bool {
    exists|q: int| 0 <= q < p && tasks[order[q]].id == tasks[order[p]].depends_on[k]
}

/// `order` lists every task once, each after every task it depends on.
pub open spec fn is_topological_order(tasks: Seq<TaskView>, order: Seq<int>) -> bool {
    &&& order.len() == tasks.len()
    &&& order.no_duplicates()
    &&& forall|p: int| 0 <= p < order.len() ==> 0 <= #[trigger] order[p] < tasks.len()
    &&& forall|p: int, k: int|
        0 <= p < order.len() && 0 <= k < tasks[order[p]].depends_on.len()
            ==> #[trigger] dep_placed_before(tasks, order, p, k)
}

/// Task `x` depends on some task of `s`.
pub open spec fn depends_within(tasks: Seq<TaskView>, s: Set<int>, x: int) -> bool {
    exists|k: int, y: int|
        0 <= k < tasks[x].depends_on.len() && s.contains(y) && tasks[y].id
            == tasks[x].depends_on[k]
}

/// `s` is a nonempty set of tasks each of which depends on a task of `s`.
pub open spec fn is_dependency_cycle(tasks: Seq<TaskView>, s: Set<int>) -> bool {
    &&& exists|x: int| s.contains(x)
    &&& forall|x: int| #[trigger]
        s.contains(x) ==> 0 <= x < tasks.len() && depends_within(tasks, s, x)
}

/// Some tasks depend on one another in a ring.
pub open spec fn has_dependency_cycle(tasks: Seq<TaskView>) -> bool {
    exists|s: Set<int>| is_dependency_cycle(tasks, s)
}

/// The number of `deps` whose task is not in `done`.
pub open spec fn unmet(tasks: Seq<TaskView>, deps: Seq<Seq<char>>, done: Seq<int>) -> nat
    decreases deps.len(),
{
    if deps.len() == 0 {
        0
    } else {
        unmet(tasks, deps.drop_last(), done) + if done.contains(index_of(tasks, deps.last())) {
            0nat
        } else {
            1nat
        }
    }
}

// ---------------------------------------------------------------------------
// Unmet dependencies.

proof fn lemma_unmet_push(tasks: Seq<TaskView>, deps: Seq<Seq<char>>, done: Seq<int>, u: int)
    requires
        !done.contains(u),
    ensures
        unmet(tasks, deps, done.push(u)) + count_targets(tasks, deps, u) == unmet(tasks, deps, done),
    decreases deps.len(),
{
    if deps.len() > 0 {
        lemma_unmet_push(tasks, deps.drop_last(), done, u);
        let idx = index_of(tasks, deps.last());
        if done.push(u).contains(idx) {
            if !done.contains(idx) {
                let i = choose|i: int| 0 <= i < done.push(u).len() && done.push(u)[i] == idx;
                if i < done.len() {
                    assert(done[i] == idx);
                }
                assert(idx == u);
            }
        } else {
            assert(idx != u) by {
                assert(done.push(u)[done.len() as int] == u);
            }
            if done.contains(idx) {
                let i = choose|i: int| 0 <= i < done.len() && done[i] == idx;
                assert(done.push(u)[i] == idx);
            }
        }
    }
}

proof fn lemma_unmet_zero(tasks: Seq<TaskView>, deps: Seq<Seq<char>>, done: Seq<int>, k: int)
    requires
        unmet(tasks, deps, done) == 0,
        0 <= k < deps.len(),
    ensures
        done.contains(index_of(tasks, deps[k])),
    decreases deps.len(),
{
    if k < deps.len() - 1 {
        lemma_unmet_zero(tasks, deps.drop_last(), done, k);
    }
}

proof fn lemma_unmet_pos(tasks: Seq<TaskView>, deps: Seq<Seq<char>>, done: Seq<int>) -> (k: int)
    requires
        unmet(tasks, deps, done) > 0,
    ensures
        0 <= k < deps.len(),
        !done.contains(index_of(tasks, deps[k])),
    decreases deps.len(),
{
    if done.contains(index_of(tasks, deps.last())) {
        lemma_unmet_pos(tasks, deps.drop_last(), done)
    } else {
        (deps.len() - 1) as int
    }
}

proof fn lemma_unmet_none_done(tasks: Seq<TaskView>, deps: Seq<Seq<char>>)
    ensures
        unmet(tasks, deps, Seq::empty()) == deps.len(),
    decreases deps.len(),
{
    if deps.len() > 0 {
        lemma_unmet_none_done(tasks, deps.drop_last());
    }
}

// ---------------------------------------------------------------------------
// Distinct ids.

proof fn lemma_distinct_rep(tasks: Seq<TaskView>, i: int)
    requires
        distinct_ids(tasks),
        0 <= i < tasks.len(),
    ensures
        rep(tasks, i) == i,
{
    lemma_index_upto(tasks, tasks[i].id, tasks.len() as int);
}

proof fn lemma_index_upto(tasks: Seq<TaskView>, id: Seq<char>, k: int)
    requires
        0 <= k <= tasks.len(),
    ensures
        -1 <= index_upto(tasks, id, k) < k,
        index_upto(tasks, id, k) >= 0 ==> tasks[index_upto(tasks, id, k)].id == id,
        index_upto(tasks, id, k) == -1 ==> forall|i: int| 0 <= i < k ==> tasks[i].id != id,
        forall|i: int| index_upto(tasks, id, k) < i < k ==> tasks[i].id != id,
    decreases k,
{
    if k > 0 {
        lemma_index_upto(tasks, id, k - 1);
    }
}

proof fn lemma_index_of_id(tasks: Seq<TaskView>, id: Seq<char>)
    requires
        has_task(tasks, id),
    ensures
        0 <= index_of(tasks, id) < tasks.len(),
        tasks[index_of(tasks, id)].id == id,
{
    lemma_index_upto(tasks, id, tasks.len() as int);
    let i = choose|i: int| 0 <= i < tasks.len() && tasks[i].id == id;
}

proof fn lemma_distinct_indegree(tasks: Seq<TaskView>, x: int, k: int)
    requires
        distinct_ids(tasks),
        0 <= x < tasks.len(),
        0 <= k <= tasks.len(),
    ensures
        indegree_upto(tasks, x, k) == if x < k {
            tasks[x].depends_on.len()
        } else {
            0
        },
    decreases k,
{
    if k > 0 {
        lemma_distinct_indegree(tasks, x, k - 1);
        lemma_distinct_rep(tasks, k - 1);
    }
}

// ---------------------------------------------------------------------------
// Relaxing a run of dependents.

proof fn lemma_relax_prefix(
    d: Seq<int>,
    q: Seq<int>,
    u: bool,
    s: Seq<int>,
    t: Seq<int>,
    j: int,
)
    requires
        0 <= j <= s.len(),
        j <= t.len(),
        forall|i: int| 0 <= i < j ==> s[i] == t[i],
    ensures
        relax(d, q, u, s, j) == relax(d, q, u, t, j),
    decreases j,
{
    if j > 0 {
        lemma_relax_prefix(d, q, u, s, t, j - 1);
    }
}

proof fn lemma_relax_concat(d: Seq<int>, q: Seq<int>, u: bool, a: Seq<int>, b: Seq<int>, j: int)
    requires
        0 <= j <= b.len(),
    ensures
        relax(d, q, u, a + b, a.len() + j) == ({
            let (d1, q1, u1) = relax(d, q, u, a, a.len() as int);
            relax(d1, q1, u1, b, j)
        }),
    decreases j,
{
    if j == 0 {
        lemma_relax_prefix(d, q, u, a + b, a, a.len() as int);
    } else {
        lemma_relax_concat(d, q, u, a, b, j - 1);
        assert((a + b)[a.len() + j - 1] == b[j - 1]);
    }
}

proof fn lemma_relax_block(d: Seq<int>, q: Seq<int>, t: int, c: nat)
    requires
        0 <= t < d.len(),
        d[t] >= c,
    ensures
        relax(d, q, false, Seq::new(c, |_i: int| t), c as int) == (
            d.update(t, d[t] - c),
            if c > 0 && d[t] == c {
                q.push(t)
            } else {
                q
            },
            false,
        ),
    decreases c,
{
    if c == 0 {
        assert(d.update(t, d[t] - c) =~= d);
    } else {
        let s = Seq::new(c, |_i: int| t);
        let s1 = Seq::new((c - 1) as nat, |_i: int| t);
        lemma_relax_prefix(d, q, false, s, s1, c - 1);
        lemma_relax_block(d, q, t, (c - 1) as nat);
        assert(s[c - 1] == t);
        assert(d.update(t, d[t] - (c - 1)).update(t, d[t] - (c - 1) - 1) =~= d.update(t, d[t] - c));
    }
}

/// The dependents of `u`, among the first `k` tasks, whose last unmet
/// dependencies are met by `u`.
pub open spec fn newly_ready(tasks: Seq<TaskView>, deg: Seq<int>, u: int, k: int) -> Seq<int>
    decreases k,
{
    if k <= 0 {
        Seq::empty()
    } else {
        let c = count_targets(tasks, tasks[k - 1].depends_on, u);
        newly_ready(tasks, deg, u, k - 1) + if c > 0 && deg[k - 1] == c {
            seq![k - 1]
        } else {
            Seq::empty()
        }
    }
}

/// The counts after the first `k` tasks lost their dependencies on `u`.
pub open spec fn deg_after(tasks: Seq<TaskView>, deg: Seq<int>, u: int, k: int) -> Seq<int> {
    Seq::new(
        deg.len(),
        |x: int|
            if x < k {
                deg[x] - count_targets(tasks, tasks[x].depends_on, u)
            } else {
                deg[x]
            },
    )
}

proof fn lemma_newly_ready(tasks: Seq<TaskView>, deg: Seq<int>, u: int, k: int)
    requires
        0 <= k,
    ensures
        forall|x: int|
            #[trigger] newly_ready(tasks, deg, u, k).contains(x) <==> (0 <= x < k && count_targets(
                tasks,
                tasks[x].depends_on,
                u,
            ) > 0 && deg[x] == count_targets(tasks, tasks[x].depends_on, u)),
        newly_ready(tasks, deg, u, k).no_duplicates(),
        newly_ready(tasks, deg, u, k).len() <= k,
    decreases k,
{
    if k > 0 {
        lemma_newly_ready(tasks, deg, u, k - 1);
        let prev = newly_ready(tasks, deg, u, k - 1);
        let c = count_targets(tasks, tasks[k - 1].depends_on, u);
        let cur = newly_ready(tasks, deg, u, k);
        if c > 0 && deg[k - 1] == c {
            assert(cur == prev.push(k - 1));
            assert forall|x: int| cur.contains(x) <==> (0 <= x < k && count_targets(
                tasks,
                tasks[x].depends_on,
                u,
            ) > 0 && deg[x] == count_targets(tasks, tasks[x].depends_on, u)) by {
                if cur.contains(x) {
                    let i = choose|i: int| 0 <= i < cur.len() && cur[i] == x;
                    if i < prev.len() {
                        assert(prev[i] == x);
                        assert(prev.contains(x));
                    } else {
                        assert(x == k - 1);
                    }
                }
                if x == k - 1 {
                    assert(cur[prev.len() as int] == x);
                } else if prev.contains(x) {
                    let i = choose|i: int| 0 <= i < prev.len() && prev[i] == x;
                    assert(cur[i] == x);
                }
            }
            assert forall|i: int, j: int|
                0 <= i < cur.len() && 0 <= j < cur.len() && i != j implies cur[i] != cur[j] by {
                if i == prev.len() {
                    assert(prev.contains(cur[j]));
                } else if j == prev.len() {
                    assert(prev.contains(cur[i]));
                }
            }
        } else {
            assert(cur =~= prev);
        }
    }
}

proof fn lemma_relax_children(tasks: Seq<TaskView>, deg: Seq<int>, q: Seq<int>, u: int, k: int)
    requires
        distinct_ids(tasks),
        0 <= k <= tasks.len(),
        deg.len() == tasks.len(),
        forall|x: int|
            0 <= x < tasks.len() ==> #[trigger] deg[x] >= count_targets(tasks, tasks[x].depends_on, u),
    ensures
        relax(deg, q, false, children_upto(tasks, u, k), children_upto(tasks, u, k).len() as int) == (
            deg_after(tasks, deg, u, k),
            q + newly_ready(tasks, deg, u, k),
            false,
        ),
        sum(deg_after(tasks, deg, u, k)) + newly_ready(tasks, deg, u, k).len() <= sum(deg),
    decreases k,
{
    if k == 0 {
        assert(deg_after(tasks, deg, u, 0) =~= deg);
        assert(q + newly_ready(tasks, deg, u, 0) =~= q);
    } else {
        lemma_relax_children(tasks, deg, q, u, k - 1);
        lemma_distinct_rep(tasks, k - 1);
        let a = children_upto(tasks, u, k - 1);
        let c = count_targets(tasks, tasks[k - 1].depends_on, u);
        let b = Seq::new(c, |_i: int| k - 1);
        assert(children_upto(tasks, u, k) =~= a + b);
        lemma_relax_concat(deg, q, false, a, b, b.len() as int);
        let d1 = deg_after(tasks, deg, u, k - 1);
        let q1 = q + newly_ready(tasks, deg, u, k - 1);
        assert(d1[k - 1] == deg[k - 1]);
        lemma_relax_block(d1, q1, k - 1, c);
        assert(d1.update(k - 1, d1[k - 1] - c) =~= deg_after(tasks, deg, u, k));
        if c > 0 && deg[k - 1] == c {
            assert(q1.push(k - 1) =~= q + newly_ready(tasks, deg, u, k));
        } else {
            assert(q1 =~= q + newly_ready(tasks, deg, u, k));
        }
        crate::schedule::lemma_sum_update(d1, k - 1, d1[k - 1] - c);
    }
}

// ---------------------------------------------------------------------------
// The invariant of the ordering.

/// The measure that every step decreases.
pub open spec fn kahn_measure(st: KahnState) -> int {
    st.queue.len() + sum(st.deg)
}

/// What holds of every state of the ordering when ids are distinct and every
/// dependency names a task.
pub open spec fn kahn_inv(tasks: Seq<TaskView>, st: KahnState) -> bool {
    let all = st.ordered + st.queue;
    &&& !st.underflow
    &&& st.deg.len() == tasks.len()
    &&& all.no_duplicates()
    &&& forall|i: int| 0 <= i < all.len() ==> 0 <= #[trigger] all[i] < tasks.len()
    &&& forall|x: int| 0 <= x < tasks.len() ==> (all.contains(x) <==> #[trigger] st.deg[x] == 0)
    &&& forall|x: int|
        0 <= x < tasks.len() ==> #[trigger] st.deg[x] == unmet(tasks, tasks[x].depends_on, st.ordered)
    &&& forall|p: int, k: int|
        0 <= p < st.ordered.len() && 0 <= k < tasks[st.ordered[p]].depends_on.len()
            ==> #[trigger] dep_placed_before(tasks, st.ordered, p, k)
}

proof fn lemma_deg_nonneg(tasks: Seq<TaskView>, st: KahnState)
    requires
        kahn_inv(tasks, st),
    ensures
        sum(st.deg) >= 0,
{
    assert forall|x: int| 0 <= x < st.deg.len() implies st.deg[x] >= 0 by {
        assert(st.deg[x] == unmet(tasks, tasks[x].depends_on, st.ordered));
    }
    crate::schedule::lemma_sum_nonneg(st.deg);
}

proof fn lemma_initial_queue(tasks: Seq<TaskView>, k: int)
    requires
        distinct_ids(tasks),
        0 <= k <= tasks.len(),
    ensures
        initial_queue_upto(tasks, k).no_duplicates(),
        forall|x: int|
            initial_queue_upto(tasks, k).contains(x) <==> (0 <= x < k
                && tasks[x].depends_on.len() == 0),
    decreases k,
{
    if k > 0 {
        lemma_initial_queue(tasks, k - 1);
        lemma_distinct_rep(tasks, k - 1);
        lemma_distinct_indegree(tasks, k - 1, tasks.len() as int);
        let prev = initial_queue_upto(tasks, k - 1);
        let cur = initial_queue_upto(tasks, k);
        if tasks[k - 1].depends_on.len() == 0 {
            assert(cur == prev.push(k - 1));
            assert forall|x: int|
                cur.contains(x) <==> (0 <= x < k && tasks[x].depends_on.len() == 0) by {
                if cur.contains(x) && x != k - 1 {
                    let i = choose|i: int| 0 <= i < cur.len() && cur[i] == x;
                    assert(prev[i] == x);
                }
                if x == k - 1 {
                    assert(cur[prev.len() as int] == x);
                } else if prev.contains(x) {
                    let i = choose|i: int| 0 <= i < prev.len() && prev[i] == x;
                    assert(cur[i] == x);
                }
            }
            assert forall|i: int, j: int|
                0 <= i < cur.len() && 0 <= j < cur.len() && i != j implies cur[i] != cur[j] by {
                if i == prev.len() {
                    assert(prev.contains(cur[j]));
                } else if j == prev.len() {
                    assert(prev.contains(cur[i]));
                }
            }
        } else {
            assert(cur =~= prev);
        }
    }
}

proof fn lemma_inv_init(tasks: Seq<TaskView>)
    requires
        distinct_ids(tasks),
    ensures
        kahn_inv(tasks, kahn_init(tasks)),
        kahn_measure(kahn_init(tasks)) == kahn_fuel(tasks),
{
    let st = kahn_init(tasks);
    lemma_initial_queue(tasks, tasks.len() as int);
    assert(st.ordered + st.queue =~= initial_queue(tasks));
    assert forall|x: int| 0 <= x < tasks.len() implies #[trigger] st.deg[x] == unmet(
        tasks,
        tasks[x].depends_on,
        st.ordered,
    ) by {
        lemma_distinct_indegree(tasks, x, tasks.len() as int);
        lemma_unmet_none_done(tasks, tasks[x].depends_on);
    }
    assert forall|i: int| 0 <= i < initial_queue(tasks).len() implies 0 <= #[trigger] initial_queue(
        tasks,
    )[i] < tasks.len() by {
        assert(initial_queue(tasks).contains(initial_queue(tasks)[i]));
    }
    lemma_deg_nonneg(tasks, st);
}

proof fn lemma_inv_step(tasks: Seq<TaskView>, st: KahnState)
    requires
        distinct_ids(tasks),
        deps_complete(tasks),
        kahn_inv(tasks, st),
        st.queue.len() > 0,
    ensures
        kahn_inv(tasks, kahn_step(tasks, st)),
        kahn_measure(kahn_step(tasks, st)) <= kahn_measure(st) - 1,
{
    let n = tasks.len();
    let u = st.queue[0];
    let all = st.ordered + st.queue;
    assert(all[st.ordered.len() as int] == u);
    assert(0 <= u < n);
    assert(!st.ordered.contains(u)) by {
        if st.ordered.contains(u) {
            let i = choose|i: int| 0 <= i < st.ordered.len() && st.ordered[i] == u;
            assert(all[i] == u);
        }
    }
    assert forall|x: int| 0 <= x < n implies #[trigger] st.deg[x] >= count_targets(
        tasks,
        tasks[x].depends_on,
        u,
    ) by {
        lemma_unmet_push(tasks, tasks[x].depends_on, st.ordered, u);
    }
    lemma_relax_children(tasks, st.deg, st.queue.drop_first(), u, n as int);
    let fresh = newly_ready(tasks, st.deg, u, n as int);
    lemma_newly_ready(tasks, st.deg, u, n as int);
    let nst = kahn_step(tasks, st);
    assert(nst.ordered == st.ordered.push(u));
    assert(nst.queue == st.queue.drop_first() + fresh);
    assert(nst.deg == deg_after(tasks, st.deg, u, n as int));
    let nall = nst.ordered + nst.queue;
    assert(nall =~= all + fresh);
    // Counts.
    assert forall|x: int| 0 <= x < n implies #[trigger] nst.deg[x] == unmet(
        tasks,
        tasks[x].depends_on,
        nst.ordered,
    ) by {
        lemma_unmet_push(tasks, tasks[x].depends_on, st.ordered, u);
    }
    // Membership.
    assert forall|x: int| 0 <= x < n implies (nall.contains(x) <==> #[trigger] nst.deg[x] == 0) by {
        let c = count_targets(tasks, tasks[x].depends_on, u);
        if all.contains(x) {
            let i = choose|i: int| 0 <= i < all.len() && all[i] == x;
            assert(nall[i] == x);
        }
        if fresh.contains(x) {
            let i = choose|i: int| 0 <= i < fresh.len() && fresh[i] == x;
            assert(nall[all.len() + i] == x);
        }
        if nall.contains(x) {
            let i = choose|i: int| 0 <= i < nall.len() && nall[i] == x;
            if i < all.len() {
                assert(all[i] == x);
            } else {
                assert(fresh[i - all.len()] == x);
            }
        }
    }
    // No duplicates and range.
    assert forall|x: int| fresh.contains(x) implies !all.contains(x) by {
        assert(0 <= x < n);
        assert(st.deg[x] > 0);
    }
    assert forall|i: int, j: int|
        0 <= i < nall.len() && 0 <= j < nall.len() && i != j implies nall[i] != nall[j] by {
        if i < all.len() && j >= all.len() {
            assert(nall[j] == fresh[j - all.len()]);
            assert(fresh.contains(nall[j]));
            assert(nall[i] == all[i]);
            assert(all.contains(nall[i]));
        } else if j < all.len() && i >= all.len() {
            assert(nall[i] == fresh[i - all.len()]);
            assert(fresh.contains(nall[i]));
            assert(nall[j] == all[j]);
            assert(all.contains(nall[j]));
        } else if i >= all.len() && j >= all.len() {
            assert(fresh[i - all.len()] != fresh[j - all.len()]);
        } else {
            assert(all[i] != all[j]);
        }
    }
    assert forall|i: int| 0 <= i < nall.len() implies 0 <= #[trigger] nall[i] < n by {
        if i >= all.len() {
            assert(nall[i] == fresh[i - all.len()]);
            assert(fresh.contains(nall[i]));
        } else {
            assert(nall[i] == all[i]);
        }
    }
    // Dependencies placed before.
    assert forall|p: int, k: int|
        0 <= p < nst.ordered.len() && 0 <= k < tasks[nst.ordered[p]].depends_on.len()
            implies #[trigger] dep_placed_before(tasks, nst.ordered, p, k) by {
        if p < st.ordered.len() {
            assert(dep_placed_before(tasks, st.ordered, p, k));
            let q = choose|q: int|
                0 <= q < p && tasks[st.ordered[q]].id == tasks[st.ordered[p]].depends_on[k];
            assert(nst.ordered[q] == st.ordered[q]);
        } else {
            assert(nst.ordered[p] == u);
            assert(st.deg[u] == 0);
            let dep = tasks[u].depends_on[k];
            lemma_unmet_zero(tasks, tasks[u].depends_on, st.ordered, k);
            assert(!dep_missing(tasks, u, k));
            lemma_index_of_id(tasks, dep);
            let q = choose|q: int| 0 <= q < st.ordered.len() && st.ordered[q] == index_of(tasks, dep);
            assert(nst.ordered[q] == st.ordered[q]);
        }
    }
    lemma_deg_nonneg(tasks, nst);
}

proof fn lemma_inv_iter(tasks: Seq<TaskView>, m: nat)
    requires
        distinct_ids(tasks),
        deps_complete(tasks),
    ensures
        kahn_inv(tasks, kahn_iter(tasks, m)),
        kahn_iter(tasks, m).queue.len() == 0 || m + kahn_measure(kahn_iter(tasks, m)) <= kahn_fuel(
            tasks,
        ),
    decreases m,
{
    if m == 0 {
        lemma_inv_init(tasks);
    } else {
        lemma_inv_iter(tasks, (m - 1) as nat);
        let prev = kahn_iter(tasks, (m - 1) as nat);
        if prev.queue.len() > 0 {
            lemma_inv_step(tasks, prev);
        }
    }
}

proof fn lemma_final(tasks: Seq<TaskView>)
    requires
        distinct_ids(tasks),
        deps_complete(tasks),
    ensures
        kahn_inv(tasks, kahn_final(tasks)),
        kahn_final(tasks).queue.len() == 0,
{
    let f = kahn_fuel(tasks);
    lemma_inv_iter(tasks, f);
    lemma_deg_nonneg(tasks, kahn_iter(tasks, f));
}

// ---------------------------------------------------------------------------
// Orders and cycles.

pub proof fn lemma_covers_range(s: Seq<int>, n: int)
    requires
        s.no_duplicates(),
        s.len() == n,
        forall|i: int| 0 <= i < s.len() ==> 0 <= #[trigger] s[i] < n,
    ensures
        forall|x: int| 0 <= x < n ==> s.contains(x),
{
    s.unique_seq_to_set();
    lemma_int_range(0, n);
    assert(s.to_set().subset_of(set_int_range(0, n)));
    assert forall|x: int| 0 <= x < n implies s.contains(x) by {
        if !s.contains(x) {
            assert(s.to_set().subset_of(set_int_range(0, n).remove(x)));
            lemma_len_subset(s.to_set(), set_int_range(0, n).remove(x));
        }
    }
}

proof fn lemma_misses_some(s: Seq<int>, n: int) -> (x: int)
    requires
        s.no_duplicates(),
        s.len() != n,
        0 <= n,
        forall|i: int| 0 <= i < s.len() ==> 0 <= #[trigger] s[i] < n,
    ensures
        0 <= x < n,
        !s.contains(x),
{
    s.unique_seq_to_set();
    lemma_int_range(0, n);
    assert(s.to_set().subset_of(set_int_range(0, n)));
    lemma_len_subset(s.to_set(), set_int_range(0, n));
    if forall|x: int| 0 <= x < n ==> s.contains(x) {
        assert(set_int_range(0, n).subset_of(s.to_set()));
        lemma_len_subset(set_int_range(0, n), s.to_set());
        assert(false);
    }
    choose|x: int| 0 <= x < n && !s.contains(x)
}

/// No set of tasks that depend on one another in a ring can be placed in a
/// topological order.
pub proof fn law_order_excludes_cycle(tasks: Seq<TaskView>, order: Seq<int>)
    requires
        distinct_ids(tasks),
        is_topological_order(tasks, order),
    ensures
        !has_dependency_cycle(tasks),
{
    if has_dependency_cycle(tasks) {
        let s = choose|s: Set<int>| is_dependency_cycle(tasks, s);
        lemma_covers_range(order, tasks.len() as int);
        let x0 = choose|x: int| s.contains(x);
        assert(0 <= x0 < tasks.len());
        assert(order.contains(x0));
        let p0 = choose|p: int| 0 <= p < order.len() && order[p] == x0;
        lemma_no_member_before(tasks, order, s, p0 + 1);
    }
}

proof fn lemma_no_member_before(tasks: Seq<TaskView>, order: Seq<int>, s: Set<int>, p: int)
    requires
        distinct_ids(tasks),
        is_topological_order(tasks, order),
        is_dependency_cycle(tasks, s),
        0 <= p <= order.len(),
    ensures
        forall|i: int| 0 <= i < p ==> !s.contains(#[trigger] order[i]),
    decreases p,
{
    if p > 0 {
        lemma_no_member_before(tasks, order, s, p - 1);
        let x = order[p - 1];
        if s.contains(x) {
            assert(depends_within(tasks, s, x));
            let (k, y) = choose|k: int, y: int|
                0 <= k < tasks[x].depends_on.len() && s.contains(y) && tasks[y].id
                    == tasks[x].depends_on[k];
            assert(dep_placed_before(tasks, order, p - 1, k));
            let q = choose|q: int|
                0 <= q < p - 1 && tasks[order[q]].id == tasks[order[p - 1]].depends_on[k];
            assert(order[q] == y);
            assert(!s.contains(order[q]));
        }
    }
}

/// With distinct ids, ordering never panics; it succeeds exactly when every
/// dependency names a task and no tasks depend on one another in a ring; and
/// then every task comes once, after every task it depends on.
pub proof fn law_topological_order(tasks: Seq<TaskView>)
    requires
        distinct_ids(tasks),
    ensures
        !ordering_panics(tasks),
        topological_result(tasks) is Ok <==> deps_complete(tasks) && !has_dependency_cycle(tasks),
        topological_result(tasks) matches Ok(order) ==> is_topological_order(tasks, order),
        topological_result(tasks) == Err::<Seq<int>, CrewErrorView>(CrewErrorView::CyclicTaskGraph)
            <==> deps_complete(tasks) && has_dependency_cycle(tasks),
{
    if deps_complete(tasks) {
        lemma_final(tasks);
        let st = kahn_final(tasks);
        let n = tasks.len() as int;
        assert(st.ordered + st.queue =~= st.ordered);
        if st.ordered.len() == n {
            let order = st.ordered;
            assert(is_topological_order(tasks, order));
            law_order_excludes_cycle(tasks, order);
        } else {
            let ordered = st.ordered;
            assert(forall|i: int| 0 <= i < ordered.len() ==> 0 <= #[trigger] ordered[i] < n) by {
                assert forall|i: int| 0 <= i < ordered.len() implies 0 <= #[trigger] ordered[i] < n by {
                    assert((st.ordered + st.queue)[i] == ordered[i]);
                }
            }
            let x0 = lemma_misses_some(ordered, n);
            let s = Set::new(|x: int| 0 <= x < n && !ordered.contains(x));
            assert(s.contains(x0));
            assert forall|x: int| #[trigger] s.contains(x) implies 0 <= x < n && depends_within(tasks, s, x) by {
                assert(!(st.ordered + st.queue).contains(x));
                assert(st.deg[x] != 0);
                let k = lemma_unmet_pos(tasks, tasks[x].depends_on, ordered);
                let dep = tasks[x].depends_on[k];
                assert(!dep_missing(tasks, x, k));
                lemma_index_of_id(tasks, dep);
                let y = index_of(tasks, dep);
                assert(s.contains(y));
            }
            assert(is_dependency_cycle(tasks, s));
        }
    }
}

} // verus!
