//! The ordering core of the GPU kernel scheduler.
//!
//! Kernels are scheduled greedily: in each of `n` rounds the scheduler takes
//! the first task of a priority list that has not run yet and whose
//! dependencies have all run. The priorities themselves come from heat-kernel
//! diffusion on the dependency graph; this module takes their order as given.

use vstd::prelude::*;

verus! {

/// Task `t` is ready after the tasks of `done` have run: it has not run yet,
/// and every one of its dependencies has.
pub open spec fn ready(deps: Seq<Seq<usize>>, done: Seq<usize>, t: usize) -> bool {
    &&& !done.contains(t)
    &&& forall|k: int| 0 <= k < deps[t as int].len() ==> done.contains(#[trigger] deps[t as int][k])
}

/// Position `p` of `priority` holds the first task that is ready after `done`.
pub open spec fn first_ready_at(
    deps: Seq<Seq<usize>>,
    priority: Seq<usize>,
    done: Seq<usize>,
    p: int,
) -> bool {
    &&& 0 <= p < priority.len()
    &&& ready(deps, done, priority[p])
    &&& forall|q: int| 0 <= q < p ==> !ready(deps, done, #[trigger] priority[q])
}

/// `t` is the first task of `priority` that is ready after `done`.
pub open spec fn first_ready(deps: Seq<Seq<usize>>, priority: Seq<usize>, done: Seq<usize>, t: usize) -> bool {
    exists|p: int| first_ready_at(deps, priority, done, p) && #[trigger] priority[p] == t
}

/// No task of `priority` is ready after `done`.
pub open spec fn stuck(deps: Seq<Seq<usize>>, priority: Seq<usize>, done: Seq<usize>) -> bool {
    forall|p: int| 0 <= p < priority.len() ==> !ready(deps, done, #[trigger] priority[p])
}

/// `order` is what `rounds` rounds of greedy list scheduling produce: each of
/// its tasks is the first ready task of `priority` given the tasks before it,
/// and it is cut short only when no task is ready.
pub open spec fn is_greedy_schedule(
    deps: Seq<Seq<usize>>,
    priority: Seq<usize>,
    rounds: nat,
    order: Seq<usize>,
) -> bool {
    &&& order.len() <= rounds
    &&& forall|k: int|
        0 <= k < order.len() ==> #[trigger] first_ready(deps, priority, order.take(k), order[k])
    &&& order.len() < rounds ==> stuck(deps, priority, order)
}

/// Every task in `order` comes after all of its dependencies.
pub open spec fn respects_dependencies(deps: Seq<Seq<usize>>, order: Seq<usize>) -> bool {
    forall|i: int, k: int|
        0 <= i < order.len() && 0 <= k < deps[order[i] as int].len() ==> order.take(i).contains(
            #[trigger] deps[order[i] as int][k],
        )
}

/// Each entry of `deps` names a task `< deps.len()`.
pub open spec fn deps_in_range(deps: Seq<Seq<usize>>) -> bool {
    forall|t: int, k: int|
        0 <= t < deps.len() && 0 <= k < deps[t].len() ==> #[trigger] deps[t][k] < deps.len()
}

/// `c` is a chain of dependencies: each entry after the first is a dependency
/// of the entry before it.
pub open spec fn is_dependency_chain(deps: Seq<Seq<usize>>, c: Seq<usize>) -> bool {
    forall|i: int| #![trigger c[i]] 0 <= i < c.len() - 1 ==> deps[c[i] as int].contains(c[i + 1])
}

/// Some chain of dependencies from `t` runs into a cycle (passes some task twice).
pub open spec fn reaches_cycle(deps: Seq<Seq<usize>>, t: usize) -> bool {
    exists|c: Seq<usize>|
        #![trigger is_dependency_chain(deps, c)]
        c.len() > 0 && c[0] == t && is_dependency_chain(deps, c) && !c.no_duplicates()
}

/// The order in which greedy list scheduling runs the tasks `0..n`
/// (`n = dependencies.len()`, task `t` depending on `dependencies[t]`): in each
/// of `n` rounds, the first task of `priority` that is ready.
pub fn schedule_order(dependencies: &Vec<Vec<usize>>, priority: &Vec<usize>) -> (order: Vec<usize>)
    requires
        deps_in_range(dependencies.deep_view()),
        forall|p: int| 0 <= p < priority@.len() ==> #[trigger] priority@[p] < dependencies@.len(),
    ensures
        is_greedy_schedule(
            dependencies.deep_view(),
            priority@,
            dependencies@.len() as nat,
            order@,
        ),
        respects_dependencies(dependencies.deep_view(), order@),
        order@.no_duplicates(),
        forall|k: int| 0 <= k < order@.len() ==> #[trigger] order@[k] < dependencies@.len(),
{
    let ghost deps = dependencies.deep_view();
    let n = dependencies.len();
    let mut scheduled: Vec<bool> = Vec::new();
    let mut i: usize = 0;
    while i < n
        invariant
            i <= n,
            scheduled@.len() == i,
            forall|j: int| 0 <= j < i ==> !scheduled@[j],
        decreases n - i,
    {
        scheduled.push(false);
        i += 1;
    }
    let mut order: Vec<usize> = Vec::new();
    let mut round: usize = 0;
    while round < n
        invariant
            n == dependencies@.len(),
            deps == dependencies.deep_view(),
            deps.len() == n,
            deps_in_range(deps),
            forall|p: int| 0 <= p < priority@.len() ==> #[trigger] priority@[p] < n,
            round <= n,
            scheduled@.len() == n,
            forall|t: int| 0 <= t < n ==> #[trigger] scheduled@[t] == order@.contains(t as usize),
            forall|k: int| 0 <= k < order@.len() ==> #[trigger] order@[k] < n,
            is_greedy_schedule(deps, priority@, round as nat, order@),
        decreases n - round,
    {
        let ghost done = order@;
        let mut found: Option<usize> = None;
        let mut p: usize = 0;
        while p < priority.len() && found.is_none()
            invariant
                n == dependencies@.len(),
                deps == dependencies.deep_view(),
                deps.len() == n,
                deps_in_range(deps),
                forall|q: int| 0 <= q < priority@.len() ==> #[trigger] priority@[q] < n,
                scheduled@.len() == n,
                order@ == done,
                forall|t: int| 0 <= t < n ==> #[trigger] scheduled@[t] == done.contains(t as usize),
                p <= priority@.len(),
                match found {
                    Some(t) => first_ready(deps, priority@, done, t),
                    None => forall|q: int| 0 <= q < p ==> !ready(deps, done, #[trigger] priority@[q]),
                },
            decreases priority@.len() - p,
        {
            let t = priority[p];
            let ghost tdeps = deps[t as int];
            let mut ok = !scheduled[t];
            let deps_t = &dependencies[t];
            let mut k: usize = 0;
            while k < deps_t.len()
                invariant
                    t < n,
                    deps_t@ == tdeps,
                    tdeps == deps[t as int],
                    deps_in_range(deps),
                    deps.len() == n,
                    scheduled@.len() == n,
                    forall|u: int| 0 <= u < n ==> #[trigger] scheduled@[u] == done.contains(u as usize),
                    k <= deps_t@.len(),
                    ok == (!done.contains(t) && forall|j: int| 0 <= j < k ==> done.contains(#[trigger] tdeps[j])),
                decreases deps_t@.len() - k,
            {
                let d = deps_t[k];
                ok = ok && scheduled[d];
                k += 1;
            }
            if ok {
                found = Some(t);
            }
            p += 1;
        }
        match found {
            Some(t) => {
                let ghost q = choose|q: int| first_ready_at(deps, priority@, done, q) && #[trigger] priority@[q] == t;
                scheduled.set(t, true);
                order.push(t);
                assert(order@.take(done.len() as int) =~= done);
                assert forall|k: int| 0 <= k < done.len() implies order@.take(k) =~= done.take(k) by {}
                assert forall|u: int| 0 <= u < n implies #[trigger] scheduled@[u] == order@.contains(u as usize) by {
                    if u == t as int {
                        assert(order@[done.len() as int] == t);
                    } else if done.contains(u as usize) {
                        let j = choose|j: int| 0 <= j < done.len() && done[j] == u as usize;
                        assert(order@[j] == u as usize);
                    }
                }
                assert forall|k: int|
                    0 <= k < order@.len() implies #[trigger] first_ready(deps, priority@, order@.take(k), order@[k]) by {
                    if k < done.len() {
                        assert(order@.take(k) =~= done.take(k));
                    }
                }
            },
            None => {},
        }
        round += 1;
    }
    proof {
        lemma_greedy_schedule_properties(deps, priority@, n as nat, order@);
    }
    order
}

/// A greedy schedule runs no task twice and runs every task after its
/// dependencies.
pub proof fn lemma_greedy_schedule_properties(
    deps: Seq<Seq<usize>>,
    priority: Seq<usize>,
    rounds: nat,
    order: Seq<usize>,
)
    requires
        is_greedy_schedule(deps, priority, rounds, order),
    ensures
        order.no_duplicates(),
        respects_dependencies(deps, order),
{
    assert forall|i: int, j: int| 0 <= i < j < order.len() implies order[i] != order[j] by {
        assert(first_ready(deps, priority, order.take(j), order[j]));
        assert(order.take(j)[i] == order[i]);
    }
    assert forall|i: int, k: int|
        0 <= i < order.len() && 0 <= k < deps[order[i] as int].len() implies order.take(i).contains(
            #[trigger] deps[order[i] as int][k],
        ) by {
        assert(first_ready(deps, priority, order.take(i), order[i]));
    }
}

/// With acyclic dependencies (some ranking of the tasks drops from every task to
/// each of its dependencies) and every task in the priority list, the greedy
/// schedule runs every task.
pub proof fn lemma_greedy_schedule_complete(
    deps: Seq<Seq<usize>>,
    priority: Seq<usize>,
    order: Seq<usize>,
    rank: Seq<nat>,
)
    requires
        deps.len() <= usize::MAX,
        deps_in_range(deps),
        forall|p: int| 0 <= p < priority.len() ==> #[trigger] priority[p] < deps.len(),
        forall|t: usize| (t as int) < deps.len() ==> #[trigger] priority.contains(t),
        rank.len() == deps.len(),
        forall|t: int, k: int|
            0 <= t < deps.len() && 0 <= k < deps[t].len() ==> rank[#[trigger] deps[t][k] as int]
                < rank[t],
        is_greedy_schedule(deps, priority, deps.len() as nat, order),
    ensures
        order.len() == deps.len(),
{
    let n = deps.len();
    if order.len() < n {
        lemma_greedy_schedule_properties(deps, priority, n as nat, order);
        assert forall|k: int| 0 <= k < order.len() implies #[trigger] order[k] < n by {
            assert(first_ready(deps, priority, order.take(k), order[k]));
        }
        if forall|t: usize| (t as int) < n ==> #[trigger] order.contains(t) {
            lemma_covering_len(order, n);
        }
        let t = choose|t: usize| (t as int) < n && !#[trigger] order.contains(t);
        let r = lemma_missing_ready_task(deps, order, rank, t);
        // r is ready, yet the schedule stopped short: a contradiction.
        assert(priority.contains(r));
        let p = choose|p: int| 0 <= p < priority.len() && priority[p] == r;
        assert(ready(deps, order, priority[p]));
    }
}

/// Following dependencies that have not run, from a task that has not run,
/// reaches a task that has not run but all of whose dependencies have.
proof fn lemma_missing_ready_task(
    deps: Seq<Seq<usize>>,
    order: Seq<usize>,
    rank: Seq<nat>,
    t: usize,
) -> (r: usize)
    requires
        deps_in_range(deps),
        rank.len() == deps.len(),
        forall|t: int, k: int|
            0 <= t < deps.len() && 0 <= k < deps[t].len() ==> rank[#[trigger] deps[t][k] as int]
                < rank[t],
        (t as int) < deps.len(),
        !order.contains(t),
    ensures
        (r as int) < deps.len(),
        ready(deps, order, r),
    decreases rank[t as int],
{
    if forall|k: int| 0 <= k < deps[t as int].len() ==> order.contains(#[trigger] deps[t as int][k]) {
        t
    } else {
        let k = choose|k: int| 0 <= k < deps[t as int].len() && !order.contains(#[trigger] deps[t as int][k]);
        let d = deps[t as int][k];
        assert(rank[d as int] < rank[t as int]);
        lemma_missing_ready_task(deps, order, rank, d)
    }
}

/// A duplicate-free sequence that holds every value below `n` is at least `n` long.
proof fn lemma_covering_len(s: Seq<usize>, n: nat)
    requires
        n <= usize::MAX + 1,
        s.no_duplicates(),
        forall|x: usize| (x as int) < n ==> #[trigger] s.contains(x),
    ensures
        s.len() >= n,
    decreases n,
{
    if n > 0 {
        let x = (n - 1) as usize;
        assert(s.contains(x));
        let i = choose|i: int| 0 <= i < s.len() && s[i] == x;
        let s2 = s.remove(i);
        assert forall|a: int, b: int| 0 <= a < b < s2.len() implies s2[a] != s2[b] by {
            let a1 = if a < i { a } else { a + 1 };
            let b1 = if b < i { b } else { b + 1 };
            assert(s2[a] == s[a1] && s2[b] == s[b1]);
        }
        assert forall|y: usize| (y as int) < n - 1 implies #[trigger] s2.contains(y) by {
            assert(s.contains(y));
            let j = choose|j: int| 0 <= j < s.len() && s[j] == y;
            if j < i {
                assert(s2[j] == y);
            } else {
                assert(s2[j - 1] == y);
            }
        }
        lemma_covering_len(s2, (n - 1) as nat);
    }
}

/// The greedy schedule is determined by the dependencies, the priority list and
/// the number of rounds: two schedules for the same inputs are equal.
pub proof fn lemma_greedy_schedule_unique(
    deps: Seq<Seq<usize>>,
    priority: Seq<usize>,
    rounds: nat,
    order1: Seq<usize>,
    order2: Seq<usize>,
)
    requires
        is_greedy_schedule(deps, priority, rounds, order1),
        is_greedy_schedule(deps, priority, rounds, order2),
    ensures
        order1 == order2,
{
    let m = if order1.len() <= order2.len() { order1.len() } else { order2.len() };
    lemma_greedy_prefixes_agree(deps, priority, rounds, order1, order2, m as int);
    if order1.len() < order2.len() {
        assert(order2.take(m as int) =~= order1);
        assert(first_ready(deps, priority, order2.take(m as int), order2[m as int]));
        let p = choose|p: int| first_ready_at(deps, priority, order1, p) && #[trigger] priority[p] == order2[m as int];
    } else if order2.len() < order1.len() {
        assert(order1.take(m as int) =~= order2);
        assert(first_ready(deps, priority, order1.take(m as int), order1[m as int]));
        let p = choose|p: int| first_ready_at(deps, priority, order2, p) && #[trigger] priority[p] == order1[m as int];
    } else {
        assert(order2 =~= order2.take(m as int));
    }
}

/// At most one task is the first ready one.
proof fn lemma_first_ready_unique(
    deps: Seq<Seq<usize>>,
    priority: Seq<usize>,
    done: Seq<usize>,
    t1: usize,
    t2: usize,
)
    requires
        first_ready(deps, priority, done, t1),
        first_ready(deps, priority, done, t2),
    ensures
        t1 == t2,
{
    // Neither position can come before the other: the earlier one would be a
    // ready task before the first ready one.
    let p1 = choose|p: int| first_ready_at(deps, priority, done, p) && #[trigger] priority[p] == t1;
    let p2 = choose|p: int| first_ready_at(deps, priority, done, p) && #[trigger] priority[p] == t2;
    assert(p1 == p2);
}

proof fn lemma_greedy_prefixes_agree(
    deps: Seq<Seq<usize>>,
    priority: Seq<usize>,
    rounds: nat,
    order1: Seq<usize>,
    order2: Seq<usize>,
    m: int,
)
    requires
        is_greedy_schedule(deps, priority, rounds, order1),
        is_greedy_schedule(deps, priority, rounds, order2),
        0 <= m <= order1.len(),
        m <= order2.len(),
    ensures
        order1.take(m) == order2.take(m),
    decreases m,
{
    if m > 0 {
        lemma_greedy_prefixes_agree(deps, priority, rounds, order1, order2, m - 1);
        lemma_first_ready_unique(deps, priority, order1.take(m - 1), order1[m - 1], order2[m - 1]);
        assert(order1.take(m) =~= order1.take(m - 1).push(order1[m - 1]));
        assert(order2.take(m) =~= order2.take(m - 1).push(order2[m - 1]));
    }
}

/// When the priority list names every task, greedy scheduling runs exactly the
/// tasks from which no chain of dependencies runs into a cycle; so it runs
/// every task exactly when the dependencies have no cycle.
pub proof fn lemma_greedy_schedule_runs_acyclic_tasks(
    deps: Seq<Seq<usize>>,
    priority: Seq<usize>,
    order: Seq<usize>,
)
    requires
        deps.len() <= usize::MAX,
        deps_in_range(deps),
        forall|p: int| 0 <= p < priority.len() ==> #[trigger] priority[p] < deps.len(),
        forall|t: usize| (t as int) < deps.len() ==> #[trigger] priority.contains(t),
        is_greedy_schedule(deps, priority, deps.len() as nat, order),
    ensures
        forall|t: usize|
            (t as int) < deps.len() ==> (#[trigger] order.contains(t) <==> !reaches_cycle(deps, t)),
        order.len() == deps.len() <==> forall|t: usize|
            (t as int) < deps.len() ==> !#[trigger] reaches_cycle(deps, t),
{
    let n = deps.len();
    lemma_greedy_schedule_properties(deps, priority, n as nat, order);
    lemma_greedy_entries_in_range(deps, priority, n as nat, order);
    assert forall|t: usize| (t as int) < n implies (#[trigger] order.contains(t) <==> !reaches_cycle(deps, t)) by {
        if order.contains(t) {
            if reaches_cycle(deps, t) {
                let c = choose|c: Seq<usize>|
                    #![trigger is_dependency_chain(deps, c)]
                    c.len() > 0 && c[0] == t && is_dependency_chain(deps, c) && !c.no_duplicates();
                let ps = lemma_scheduled_chain_positions(deps, priority, n as nat, order, c, c.len() - 1);
                assert forall|i: int, j: int| 0 <= i < c.len() && 0 <= j < c.len() && i != j implies c[i] != c[j] by {
                    assert(order[ps[i]] == c[i] && order[ps[j]] == c[j]);
                    assert(ps[i] != ps[j]);
                }
            }
        } else {
            if order.len() == n {
                lemma_full_order_holds_all(order, n as nat);
            }
            let c = lemma_unscheduled_chain(deps, priority, order, t, n as nat);
            if c.no_duplicates() {
                lemma_distinct_bounded_len(c, n as nat);
            }
            assert(c.len() > 0 && c[0] == t && is_dependency_chain(deps, c) && !c.no_duplicates());
        }
    }
    if order.len() == n {
        lemma_full_order_holds_all(order, n as nat);
        assert forall|t: usize| (t as int) < n implies !#[trigger] reaches_cycle(deps, t) by {
            assert(order.contains(t));
        }
    }
    if forall|t: usize| (t as int) < n ==> !#[trigger] reaches_cycle(deps, t) {
        assert forall|t: usize| (t as int) < n implies #[trigger] order.contains(t) by {
            assert(!reaches_cycle(deps, t));
        }
        lemma_covering_len(order, n as nat);
    }
}

/// The tasks of a greedy schedule are tasks of the priority list.
proof fn lemma_greedy_entries_in_range(
    deps: Seq<Seq<usize>>,
    priority: Seq<usize>,
    rounds: nat,
    order: Seq<usize>,
)
    requires
        forall|p: int| 0 <= p < priority.len() ==> #[trigger] priority[p] < deps.len(),
        is_greedy_schedule(deps, priority, rounds, order),
    ensures
        forall|k: int| 0 <= k < order.len() ==> #[trigger] order[k] < deps.len(),
{
    assert forall|k: int| 0 <= k < order.len() implies #[trigger] order[k] < deps.len() by {
        assert(first_ready(deps, priority, order.take(k), order[k]));
    }
}

/// Along a chain of dependencies from a scheduled task, every task is
/// scheduled, each one strictly earlier than the one before it.
proof fn lemma_scheduled_chain_positions(
    deps: Seq<Seq<usize>>,
    priority: Seq<usize>,
    rounds: nat,
    order: Seq<usize>,
    c: Seq<usize>,
    k: int,
) -> (ps: Seq<int>)
    requires
        is_greedy_schedule(deps, priority, rounds, order),
        respects_dependencies(deps, order),
        is_dependency_chain(deps, c),
        0 <= k < c.len(),
        order.contains(c[0]),
    ensures
        ps.len() == k + 1,
        forall|m: int| 0 <= m <= k ==> 0 <= #[trigger] ps[m] < order.len() && order[ps[m]] == c[m],
        forall|a: int, b: int| 0 <= a < b <= k ==> #[trigger] ps[b] < #[trigger] ps[a],
    decreases k,
{
    if k == 0 {
        let p = choose|p: int| 0 <= p < order.len() && order[p] == c[0];
        seq![p]
    } else {
        let prev = lemma_scheduled_chain_positions(deps, priority, rounds, order, c, k - 1);
        let q = prev[k - 1];
        assert(deps[c[k - 1] as int].contains(c[k]));
        let j = choose|j: int| 0 <= j < deps[order[q] as int].len() && deps[order[q] as int][j] == c[k];
        assert(order.take(q).contains(deps[order[q] as int][j]));
        let p = choose|p: int| 0 <= p < q && order.take(q)[p] == c[k];
        let ps = prev.push(p);
        assert(ps[k] == p);
        assert forall|m: int| 0 <= m < k implies #[trigger] ps[m] == prev[m] by {}
        ps
    }
}

/// From a task the schedule left out, a chain of `len + 1` left-out tasks.
proof fn lemma_unscheduled_chain(
    deps: Seq<Seq<usize>>,
    priority: Seq<usize>,
    order: Seq<usize>,
    t: usize,
    len: nat,
) -> (c: Seq<usize>)
    requires
        deps_in_range(deps),
        forall|t: usize| (t as int) < deps.len() ==> #[trigger] priority.contains(t),
        stuck(deps, priority, order),
        (t as int) < deps.len(),
        !order.contains(t),
    ensures
        c.len() == len + 1,
        c[0] == t,
        is_dependency_chain(deps, c),
        forall|m: int| 0 <= m < c.len() ==> (#[trigger] c[m] as int) < deps.len() && !order.contains(c[m]),
    decreases len,
{
    if len == 0 {
        seq![t]
    } else {
        let prev = lemma_unscheduled_chain(deps, priority, order, t, (len - 1) as nat);
        let last = prev[len - 1];
        assert(!order.contains(last));
        assert(priority.contains(last));
        let p = choose|p: int| 0 <= p < priority.len() && priority[p] == last;
        assert(!ready(deps, order, priority[p]));
        let k = choose|k: int|
            0 <= k < deps[last as int].len() && !order.contains(#[trigger] deps[last as int][k]);
        let d = deps[last as int][k];
        let c = prev.push(d);
        assert(c[len as int] == d);
        assert forall|m: int| 0 <= m < len implies #[trigger] c[m] == prev[m] by {}
        assert(deps[last as int].contains(d));
        c
    }
}

/// A duplicate-free sequence of values below `n` is at most `n` long.
proof fn lemma_distinct_bounded_len(s: Seq<usize>, n: nat)
    requires
        s.no_duplicates(),
        forall|k: int| 0 <= k < s.len() ==> (#[trigger] s[k] as int) < n,
    ensures
        s.len() <= n,
    decreases n,
{
    if n == 0 {
        if s.len() > 0 {
            assert((s[0] as int) < 0);
        }
    } else {
        let x = (n - 1) as usize;
        if s.contains(x) {
            let i = choose|i: int| 0 <= i < s.len() && s[i] == x;
            let s2 = s.remove(i);
            assert forall|a: int, b: int| 0 <= a < b < s2.len() implies s2[a] != s2[b] by {
                let a1 = if a < i { a } else { a + 1 };
                let b1 = if b < i { b } else { b + 1 };
                assert(s2[a] == s[a1] && s2[b] == s[b1]);
            }
            assert forall|k: int| 0 <= k < s2.len() implies (#[trigger] s2[k] as int) < n - 1 by {
                let k1 = if k < i { k } else { k + 1 };
                assert(s2[k] == s[k1]);
                assert(s[k1] != x);
            }
            lemma_distinct_bounded_len(s2, (n - 1) as nat);
        } else {
            assert forall|k: int| 0 <= k < s.len() implies (#[trigger] s[k] as int) < n - 1 by {
                assert(s[k] != x);
            }
            lemma_distinct_bounded_len(s, (n - 1) as nat);
        }
    }
}

/// A duplicate-free sequence of `n` values below `n` holds every value below `n`.
proof fn lemma_full_order_holds_all(s: Seq<usize>, n: nat)
    requires
        s.no_duplicates(),
        s.len() == n,
        forall|k: int| 0 <= k < s.len() ==> (#[trigger] s[k] as int) < n,
    ensures
        forall|t: usize| (t as int) < n ==> #[trigger] s.contains(t),
{
    assert forall|t: usize| (t as int) < n implies #[trigger] s.contains(t) by {
        if !s.contains(t) {
            let s2 = s.push(t);
            assert forall|a: int, b: int| 0 <= a < b < s2.len() implies s2[a] != s2[b] by {
                if b == s.len() {
                    assert(s2[a] == s[a]);
                }
            }
            lemma_distinct_bounded_len(s2, n);
        }
    }
}

} // verus!
