//! The task graph: an arena of tasks keyed by identifier, with reciprocal
//! subtask/supertask edges kept consistent by every operation, and the
//! ancestor/descendant queries built on them.
//!
//! Identifiers index the arena and are never reused; a removed task leaves
//! an empty slot behind. Cycle prevention is the caller's contract: the
//! candidate filters built on `get_all_parents` and `get_all_children` keep
//! selection-driven edits acyclic, and the operations here trust that.

use vstd::prelude::*;

use crate::Error;
use crate::itinerary::Itinerary;
use crate::schedule::Schedule;
use crate::task::Task;

verus! {

/// The most tasks a graph may hold; keeps identifier arithmetic and
/// workload sums comfortably inside machine bounds.
pub const MAX_TASKS: usize = 0x8000_0000;

/// Whether `v` holds `x`.
pub(crate) fn contains_value(v: &Vec<usize>, x: usize) -> (r: bool)
    ensures
        r == v@.contains(x),
{
    let mut i: usize = 0;
    while i < v.len()
        invariant
            i <= v@.len(),
            forall|k: int| 0 <= k < i ==> v@[k] != x,
        decreases v@.len() - i,
    {
        if v[i] == x {
            return true;
        }
        i += 1;
    }
    false
}

/// Appending a fresh element keeps a sequence duplicate-free.
proof fn lemma_push_distinct(s: Seq<usize>, x: usize)
    requires
        s.no_duplicates(),
        !s.contains(x),
    ensures
        s.push(x).no_duplicates(),
{
    let t = s.push(x);
    assert forall|i: int, j: int| 0 <= i < j < t.len() implies t[i] != t[j] by {
        if j < t.len() - 1 {
            assert(t[i] == s[i] && t[j] == s[j]);
        } else {
            assert(t[j] == x && t[i] == s[i]);
            assert(s.contains(s[i]));
        }
    }
}

/// A duplicate-free sequence of indices below `n` has at most `n` elements.
proof fn lemma_distinct_bounded(s: Seq<usize>, n: nat)
    requires
        s.no_duplicates(),
        forall|k: int| 0 <= k < s.len() ==> (#[trigger] s[k]) < n,
    ensures
        s.len() <= n,
{
    let f = |v: usize| v as int;
    assert(vstd::relations::injective(f));
    s.lemma_no_duplicates_injective(f);
    let t = s.map_values(f);
    t.unique_seq_to_set();
    assert forall|e: int| t.to_set().contains(e) implies vstd::set_lib::set_int_range(
        0,
        n as int,
    ).contains(e) by {
        let k = choose|k: int| 0 <= k < t.len() && t[k] == e;
        assert(s[k] < n);
    }
    vstd::set_lib::lemma_int_range(0, n as int);
    vstd::set_lib::lemma_len_subset(
        t.to_set(),
        vstd::set_lib::set_int_range(0, n as int),
    );
}

/// Inserts `x` unless it is already present.
pub(crate) fn push_unique(v: &mut Vec<usize>, x: usize)
    requires
        old(v)@.no_duplicates(),
    ensures
        final(v)@.no_duplicates(),
        forall|y: usize| final(v)@.contains(y) <==> old(v)@.contains(y) || y == x,
        old(v)@.contains(x) ==> final(v)@ == old(v)@,
        !old(v)@.contains(x) ==> final(v)@ == old(v)@.push(x),
{
    if !contains_value(v, x) {
        proof {
            lemma_push_distinct(v@, x);
        }
        v.push(x);
        proof {
            assert forall|y: usize| v@.contains(y) implies old(v)@.contains(y) || y == x by {
                let k = choose|k: int| 0 <= k < v@.len() && v@[k] == y;
                if k < v@.len() - 1 {
                    assert(old(v)@[k] == y);
                }
            }
            assert(v@[v@.len() - 1] == x);
            assert forall|y: usize| old(v)@.contains(y) implies v@.contains(y) by {
                let k = choose|k: int| 0 <= k < old(v)@.len() && old(v)@[k] == y;
                assert(v@[k] == y);
            }
        }
    }
}

/// Removes `x` if present.
pub(crate) fn remove_value(v: &mut Vec<usize>, x: usize)
    requires
        old(v)@.no_duplicates(),
    ensures
        final(v)@.no_duplicates(),
        forall|y: usize| final(v)@.contains(y) <==> old(v)@.contains(y) && y != x,
        !old(v)@.contains(x) ==> final(v)@ == old(v)@,
{
    let ghost s = v@;
    let mut i: usize = 0;
    while i < v.len()
        invariant
            v@ == s,
            s == old(v)@,
            s.no_duplicates(),
            i <= s.len(),
            forall|k: int| 0 <= k < i ==> s[k] != x,
        decreases s.len() - i,
    {
        if v[i] == x {
            v.remove(i);
            proof {
                let t = v@;
                assert(t.len() == s.len() - 1);
                assert(forall|a: int| 0 <= a < i ==> #[trigger] t[a] == s[a]);
                assert(forall|a: int| i <= a < t.len() ==> #[trigger] t[a] == s[a + 1]);
                assert forall|a: int, b: int| 0 <= a < b < t.len() implies t[a] != t[b] by {
                    if a < i && b < i {
                        assert(s[a] != s[b]);
                    } else if a < i {
                        assert(s[a] != s[b + 1]);
                    } else {
                        assert(s[a + 1] != s[b + 1]);
                    }
                }
                assert forall|y: usize| t.contains(y) implies s.contains(y) && y != x by {
                    let k = choose|k: int| 0 <= k < t.len() && t[k] == y;
                    if k < i {
                        assert(s[k] == y);
                    } else {
                        assert(s[k + 1] == y);
                        assert(s[k + 1] != x);
                    }
                }
                assert forall|y: usize| s.contains(y) && y != x implies t.contains(y) by {
                    let k = choose|k: int| 0 <= k < s.len() && s[k] == y;
                    if k < i {
                        assert(t[k] == y);
                    } else {
                        assert(k != i);
                        assert(t[k - 1] == y);
                    }
                }
            }
            return;
        }
        i += 1;
    }
    proof {
        assert(!s.contains(x));
    }
}

/// A copy of a list of identifiers.
fn copy_ids(v: &Vec<usize>) -> (r: Vec<usize>)
    ensures
        r@ == v@,
{
    let mut r: Vec<usize> = Vec::new();
    let mut i: usize = 0;
    while i < v.len()
        invariant
            i <= v@.len(),
            r@ == v@.take(i as int),
        decreases v@.len() - i,
    {
        r.push(v[i]);
        proof {
            assert(v@.take(i + 1 as int) =~= v@.take(i as int).push(v@[i as int]));
        }
        i += 1;
    }
    proof {
        assert(v@.take(v@.len() as int) =~= v@);
    }
    r
}

/// The graph part of `post` holds exactly the tasks of `pre`, each with
/// its content and identifier unchanged; only edges may differ.
pub open spec fn tasks_preserved(pre: List, post: List) -> bool {
    &&& post.spec_len() == pre.spec_len()
    &&& forall|j: usize| #[trigger] post.spec_contains(j) <==> #[trigger] pre.spec_contains(j)
    &&& forall|j: usize|
        pre.spec_contains(j) ==> (#[trigger] post.spec_task(j)).spec_content()
            == pre.spec_task(j).spec_content() && post.spec_task(j).id == pre.spec_task(j).id
}

/// The graph part of `post` is that of `pre` with the task `id` removed
/// and every edge detached from it, everything else untouched.
pub open spec fn task_removed(pre: List, post: List, id: usize) -> bool {
    &&& post.spec_len() == pre.spec_len()
    &&& forall|j: usize|
        #[trigger] post.spec_contains(j) <==> pre.spec_contains(j) && j != id
    &&& forall|j: usize|
        j != id && pre.spec_contains(j) ==> (#[trigger] post.spec_task(j)).spec_content()
            == pre.spec_task(j).spec_content() && post.spec_task(j).id == pre.spec_task(j).id
    &&& forall|a: usize, b: usize|
        #![trigger post.edge_down(a, b)]
        #![trigger pre.edge_down(a, b)]
        post.edge_down(a, b) <==> pre.edge_down(a, b) && a != id && b != id
    &&& forall|a: usize, b: usize|
        #![trigger post.edge_up(a, b)]
        #![trigger pre.edge_up(a, b)]
        post.edge_up(a, b) <==> pre.edge_up(a, b) && a != id && b != id
}

/// The edges of `post` are those of `pre` with the pair making `b` a
/// subtask of `a` added (`inserted` true) or dissolved (`inserted` false).
pub open spec fn edge_pair_changed(
    pre: List,
    post: List,
    a: usize,
    b: usize,
    inserted: bool,
) -> bool {
    &&& forall|a2: usize, b2: usize|
        #![trigger post.edge_down(a2, b2)]
        #![trigger pre.edge_down(a2, b2)]
        post.edge_down(a2, b2) <==> if inserted {
            pre.edge_down(a2, b2) || (a2 == a && b2 == b)
        } else {
            pre.edge_down(a2, b2) && !(a2 == a && b2 == b)
        }
    &&& forall|a2: usize, b2: usize|
        #![trigger post.edge_up(a2, b2)]
        #![trigger pre.edge_up(a2, b2)]
        post.edge_up(a2, b2) <==> if inserted {
            pre.edge_up(a2, b2) || (a2 == b && b2 == a)
        } else {
            pre.edge_up(a2, b2) && !(a2 == b && b2 == a)
        }
}

/// The task graph: all tasks keyed by identifier, plus the schedule they
/// are planned against.
#[derive(Debug)]
pub struct List {
    tasks: Vec<Option<Task>>,
    schedule: Schedule,
}

impl List {
    /// The arena of task slots; a slot is `None` once its task is removed.
    pub closed spec fn spec_tasks(self) -> Seq<Option<Task>> {
        self.tasks@
    }

    /// The schedule the tasks are planned against.
    pub closed spec fn spec_schedule(self) -> Schedule {
        self.schedule
    }

    /// How many identifiers have ever been assigned.
    pub open spec fn spec_len(self) -> nat {
        self.spec_tasks().len()
    }

    /// Whether a task with this identifier is present.
    pub open spec fn spec_contains(self, id: usize) -> bool {
        id < self.spec_tasks().len() && self.spec_tasks()[id as int] is Some
    }

    /// The task with this identifier.
    pub open spec fn spec_task(self, id: usize) -> Task
        recommends
            self.spec_contains(id),
    {
        self.spec_tasks()[id as int]->Some_0
    }

    /// Whether `b` is a direct subtask of `a`.
    pub open spec fn edge_down(self, a: usize, b: usize) -> bool {
        self.spec_contains(a) && self.spec_task(a).subtasks@.contains(b)
    }

    /// Whether `b` is a direct supertask of `a`.
    pub open spec fn edge_up(self, a: usize, b: usize) -> bool {
        self.spec_contains(a) && self.spec_task(a).supertasks@.contains(b)
    }

    /// The graph's invariant: the schedule is well formed, every task is
    /// well formed and carries its own identifier, and every edge appears
    /// in both directions at once — `b` is a subtask of `a` exactly when
    /// `a` is a supertask of `b` — which also rules out dangling edges.
    pub open spec fn wf(self) -> bool {
        &&& self.spec_schedule().wf()
        &&& self.spec_len() <= MAX_TASKS
        &&& (forall|a: usize| self.spec_contains(a) ==> (#[trigger] self.spec_task(a)).wf())
        &&& (forall|a: usize|
            self.spec_contains(a) ==> (#[trigger] self.spec_task(a)).id == Some(a))
        &&& (forall|a: usize, b: usize| #[trigger] self.edge_down(a, b) ==> self.edge_up(b, a))
        &&& (forall|a: usize, b: usize| #[trigger] self.edge_up(a, b) ==> self.edge_down(b, a))
    }

    /// Law: in a well-formed graph, `b` is a subtask of `a` exactly when
    /// `a` is a supertask of `b`.
    pub proof fn lemma_edges_reciprocal(self, a: usize, b: usize)
        requires
            self.wf(),
        ensures
            self.edge_down(a, b) <==> self.edge_up(b, a),
    {
    }

    /// An empty graph over an empty schedule.
    pub fn new() -> (r: List)
        ensures
            r.wf(),
            r.spec_len() == 0,
            forall|d: u64|
                r.spec_schedule().spec_itin_for(d) == Seq::<crate::timeblock::TimeBlock>::empty(),
    {
        List { tasks: Vec::new(), schedule: Schedule::new() }
    }

    /// Whether a task with this identifier is present.
    pub fn contains_task(&self, id: usize) -> (r: bool)
        ensures
            r == self.spec_contains(id),
    {
        id < self.tasks.len() && self.tasks[id].is_some()
    }

    /// The task with this identifier, if present.
    pub fn get_task(&self, id: usize) -> (r: Option<&Task>)
        ensures
            match r {
                Some(t) => self.spec_contains(id) && *t == self.spec_task(id),
                None => !self.spec_contains(id),
            },
    {
        if id < self.tasks.len() {
            match &self.tasks[id] {
                Some(t) => Some(t),
                None => None,
            }
        } else {
            None
        }
    }

    /// Read access to the schedule, for availability queries.
    pub fn schedule(&self) -> (r: &Schedule)
        ensures
            *r == self.spec_schedule(),
    {
        &self.schedule
    }

    /// A graph with unchanged tasks and a well-formed schedule is still
    /// well formed.
    proof fn lemma_wf_after_schedule_change(self, pre: List)
        requires
            pre.wf(),
            self.spec_tasks() == pre.spec_tasks(),
            self.spec_schedule().wf(),
        ensures
            self.wf(),
    {
        assert forall|a: usize| self.spec_contains(a) implies (#[trigger] self.spec_task(
            a,
        )).wf() && self.spec_task(a).id == Some(a) by {
            assert(pre.spec_contains(a));
            assert(pre.spec_task(a).wf());
            assert(self.spec_task(a) == pre.spec_task(a));
        }
        assert forall|a: usize, b: usize| #[trigger] self.edge_down(a, b) implies self.edge_up(
            b,
            a,
        ) by {
            assert(pre.edge_down(a, b));
            assert(pre.edge_up(b, a));
        }
        assert forall|a: usize, b: usize| #[trigger] self.edge_up(a, b) implies self.edge_down(
            b,
            a,
        ) by {
            assert(pre.edge_up(a, b));
            assert(pre.edge_down(b, a));
        }
    }

    /// Sets the schedule's itinerary override for a specific date.
    pub fn set_itinerary(&mut self, date: u64, itinerary: Itinerary)
        requires
            old(self).wf(),
            itinerary.wf(),
        ensures
            final(self).wf(),
            final(self).spec_tasks() == old(self).spec_tasks(),
            final(self).spec_schedule().spec_itin_for(date) == itinerary@,
            final(self).spec_schedule().spec_override_for(date) == Some(itinerary),
            forall|d: u64|
                d != date ==> final(self).spec_schedule().spec_itin_for(d) == old(self).spec_schedule().spec_itin_for(d),
            final(self).spec_schedule().spec_default() == old(self).spec_schedule().spec_default(),
    {
        self.schedule.set_itinerary(date, itinerary);
        proof {
            self.lemma_wf_after_schedule_change(*old(self));
        }
    }

    /// Sets the schedule's default itinerary for a weekday.
    pub fn set_default_itinerary(&mut self, weekday: usize, itinerary: Itinerary)
        requires
            old(self).wf(),
            weekday < 7,
            itinerary.wf(),
        ensures
            final(self).wf(),
            final(self).spec_tasks() == old(self).spec_tasks(),
            final(self).spec_schedule().spec_overrides() == old(self).spec_schedule().spec_overrides(),
            final(self).spec_schedule().spec_default().spec_week() == old(self).spec_schedule().spec_default().spec_week().update(weekday as int, itinerary),
    {
        self.schedule.set_default_itinerary(weekday, itinerary);
        proof {
            self.lemma_wf_after_schedule_change(*old(self));
        }
    }

    /// Drops every schedule override for a date strictly before today, as
    /// the clock gives it.
    pub fn clean(&mut self)
        requires
            old(self).wf(),
        ensures
            final(self).wf(),
            final(self).spec_tasks() == old(self).spec_tasks(),
            final(self).spec_schedule().spec_default() == old(self).spec_schedule().spec_default(),
            exists|today: u64| #[trigger] crate::schedule::overrides_cleaned(
                old(self).spec_schedule(),
                final(self).spec_schedule(),
                today,
            ),
    {
        self.schedule.clean();
        proof {
            self.lemma_wf_after_schedule_change(*old(self));
        }
    }

    /// How many identifiers have ever been assigned; slots of removed
    /// tasks still count.
    pub fn task_count(&self) -> (r: usize)
        ensures
            r == self.spec_len(),
    {
        self.tasks.len()
    }

    /// The task's estimated workload, in seconds.
    pub fn estimated_time_of(&self, id: usize) -> (r: u64)
        requires
            self.spec_contains(id),
        ensures
            r == self.spec_task(id).estimated_time,
    {
        match &self.tasks[id] {
            Some(t) => t.estimated_time,
            None => {
                proof {
                    assert(false);
                }
                0
            },
        }
    }

    /// The task's extra stress weight, in hundredths of a stress unit;
    /// zero when it carries none.
    pub fn estimated_stress_of(&self, id: usize) -> (r: u64)
        requires
            self.spec_contains(id),
        ensures
            r == match self.spec_task(id).estimated_stress {
                Some(w) => w,
                None => 0,
            },
    {
        match &self.tasks[id] {
            Some(t) => match t.estimated_stress {
                Some(w) => w,
                None => 0,
            },
            None => {
                proof {
                    assert(false);
                }
                0
            },
        }
    }

    /// The task's deadline, if it has one.
    pub fn deadline_of(&self, id: usize) -> (r: Option<crate::datetime::DateTime>)
        requires
            self.spec_contains(id),
        ensures
            r == self.spec_task(id).deadline,
    {
        match &self.tasks[id] {
            Some(t) => t.deadline,
            None => {
                proof {
                    assert(false);
                }
                None
            },
        }
    }

    /// The identifiers of all present tasks, in increasing order.
    pub fn task_ids(&self) -> (r: Vec<usize>)
        ensures
            r@.no_duplicates(),
            forall|x: usize| #[trigger] r@.contains(x) <==> self.spec_contains(x),
    {
        let mut r: Vec<usize> = Vec::new();
        let mut i: usize = 0;
        while i < self.tasks.len()
            invariant
                i <= self.spec_tasks().len(),
                r@.no_duplicates(),
                forall|k: int| 0 <= k < r@.len() ==> #[trigger] r@[k] < i,
                forall|x: usize| x < i ==> (r@.contains(x) <==> self.spec_contains(x)),
            decreases self.spec_tasks().len() - i,
        {
            if self.tasks[i].is_some() {
                proof {
                    assert(!r@.contains(i));
                    lemma_push_distinct(r@, i);
                }
                let ghost prev = r@;
                r.push(i);
                proof {
                    assert forall|x: usize| x < i + 1 implies (r@.contains(x)
                        <==> self.spec_contains(x)) by {
                        if x == i {
                            assert(r@[r@.len() - 1] == i);
                        } else {
                            assert(r@.contains(x) <==> prev.contains(x)) by {
                                if r@.contains(x) {
                                    let k = choose|k: int| 0 <= k < r@.len() && r@[k] == x;
                                    assert(k < r@.len() - 1);
                                    assert(prev[k] == x);
                                }
                                if prev.contains(x) {
                                    let k = choose|k: int| 0 <= k < prev.len() && prev[k] == x;
                                    assert(r@[k] == x);
                                }
                            }
                        }
                    }
                }
            }
            i += 1;
        }
        r
    }

    /// Assigns the next identifier to `task` and inserts it with empty edge
    /// sets. Fails with [`Error::AlreadyInitialized`], leaving the graph
    /// unchanged, exactly when the task already carries an identifier.
    pub fn add_task(&mut self, task: Task) -> (r: Result<usize, Error>)
        requires
            old(self).wf(),
            task.wf(),
            old(self).spec_len() < MAX_TASKS,
        ensures
            final(self).wf(),
            final(self).spec_schedule() == old(self).spec_schedule(),
            (r is Err) <==> task.id is Some,
            match r {
                Ok(id) => {
                    &&& id == old(self).spec_len()
                    &&& final(self).spec_len() == old(self).spec_len() + 1
                    &&& final(self).spec_contains(id)
                    &&& final(self).spec_task(id).spec_content() == task.spec_content()
                    &&& final(self).spec_task(id).id == Some(id)
                    &&& final(self).spec_task(id).subtasks@ == Seq::<usize>::empty()
                    &&& final(self).spec_task(id).supertasks@ == Seq::<usize>::empty()
                    &&& forall|j: usize|
                        #[trigger] old(self).spec_contains(j) ==> final(self).spec_contains(j)
                            && final(self).spec_task(j) == old(self).spec_task(j)
                    &&& forall|j: usize|
                        #[trigger] final(self).spec_contains(j) ==> j == id || old(self).spec_contains(j)
                },
                Err(e) => e == Error::AlreadyInitialized && *final(self) == *old(self),
            },
    {
        let mut task = task;
        if task.id.is_some() {
            return Err(Error::AlreadyInitialized);
        }
        let id = self.tasks.len();
        task.id = Some(id);
        task.subtasks = Vec::new();
        task.supertasks = Vec::new();
        self.tasks.push(Some(task));
        proof {
            let pre = old(self).spec_tasks();
            let post = self.spec_tasks();
            assert(forall|j: int| 0 <= j < pre.len() ==> #[trigger] post[j] == pre[j]);
            assert(self.spec_contains(id) && self.spec_task(id).subtasks@
                == Seq::<usize>::empty());
            assert forall|a: usize| self.spec_contains(a) implies (#[trigger] self.spec_task(
                a,
            )).wf() && self.spec_task(a).id == Some(a) by {
                if a != id {
                    assert(old(self).spec_contains(a));
                    assert(old(self).spec_task(a).wf());
                    assert(self.spec_task(a) == old(self).spec_task(a));
                } else {
                    assert(self.spec_task(id).subtasks@.no_duplicates());
                    assert(self.spec_task(id).supertasks@.no_duplicates());
                }
            }
            assert forall|a: usize, b: usize| #[trigger] self.edge_down(a, b)
                implies self.edge_up(b, a) by {
                if a != id {
                    assert(old(self).edge_down(a, b));
                    assert(old(self).edge_up(b, a));
                }
            }
            assert forall|a: usize, b: usize| #[trigger] self.edge_up(a, b)
                implies self.edge_down(b, a) by {
                if a != id {
                    assert(old(self).edge_up(a, b));
                    assert(old(self).edge_down(b, a));
                }
            }
        }
        Ok(id)
    }

    /// Takes the task out of its slot, leaving the slot empty.
    fn take_task(&mut self, id: usize) -> (t: Task)
        requires
            old(self).spec_contains(id),
        ensures
            t == old(self).spec_task(id),
            final(self).spec_tasks() == old(self).spec_tasks().update(id as int, None),
            final(self).spec_schedule() == old(self).spec_schedule(),
    {
        let slot = &mut self.tasks[id];
        let opt = slot.take();
        opt.unwrap()
    }

    /// Puts a task back into its slot.
    fn put_task(&mut self, id: usize, t: Task)
        requires
            id < old(self).spec_len(),
        ensures
            final(self).spec_tasks() == old(self).spec_tasks().update(id as int, Some(t)),
            final(self).spec_schedule() == old(self).spec_schedule(),
    {
        let slot = &mut self.tasks[id];
        *slot = Some(t);
    }

    /// Inserts the edge pair making `subtask` a direct subtask of `id`,
    /// both directions at once. Fails with [`Error::UnknownTaskId`],
    /// leaving the graph unchanged, exactly when either task is missing.
    pub fn add_subtask(&mut self, id: usize, subtask: usize) -> (r: Result<(), Error>)
        requires
            old(self).wf(),
        ensures
            final(self).wf(),
            final(self).spec_schedule() == old(self).spec_schedule(),
            (r is Err) <==> !(old(self).spec_contains(id) && old(self).spec_contains(subtask)),
            match r {
                Ok(_) => {
                    &&& final(self).spec_len() == old(self).spec_len()
                    &&& forall|j: usize|
                        #[trigger] final(self).spec_contains(j) <==> #[trigger] old(self).spec_contains(j)
                    &&& forall|j: usize|
                        old(self).spec_contains(j) ==> (#[trigger] final(self).spec_task(j)).spec_content() == old(self).spec_task(j).spec_content() && final(self).spec_task(j).id == old(self).spec_task(j).id
                    &&& forall|a: usize, b: usize|
                        #![trigger final(self).edge_down(a, b)]
                        #![trigger old(self).edge_down(a, b)]
                        final(self).edge_down(a, b) <==> old(self).edge_down(a, b) || (a == id
                            && b == subtask)
                    &&& forall|a: usize, b: usize|
                        #![trigger final(self).edge_up(a, b)]
                        #![trigger old(self).edge_up(a, b)]
                        final(self).edge_up(a, b) <==> old(self).edge_up(a, b) || (a == subtask
                            && b == id)
                },
                Err(e) => e == Error::UnknownTaskId && *final(self) == *old(self),
            },
    {
        if !self.contains_task(id) || !self.contains_task(subtask) {
            return Err(Error::UnknownTaskId);
        }
        if id == subtask {
            let mut t = self.take_task(id);
            push_unique(&mut t.subtasks, subtask);
            push_unique(&mut t.supertasks, id);
            self.put_task(id, t);
        } else {
            let mut t = self.take_task(id);
            push_unique(&mut t.subtasks, subtask);
            self.put_task(id, t);
            proof {
                assert(old(self).spec_task(subtask).wf());
                assert(self.spec_task(subtask) == old(self).spec_task(subtask));
            }
            let mut u = self.take_task(subtask);
            proof {
                assert(u.supertasks@.no_duplicates());
            }
            push_unique(&mut u.supertasks, id);
            self.put_task(subtask, u);
        }
        proof {
            self.lemma_after_edge_change(*old(self), id, subtask);
        }
        Ok(())
    }

    /// Removes the edge pair between `id` and its direct subtask `subtask`,
    /// both directions at once. Fails with [`Error::UnknownTaskId`],
    /// leaving the graph unchanged, exactly when either task is missing.
    pub fn remove_subtask(&mut self, id: usize, subtask: usize) -> (r: Result<(), Error>)
        requires
            old(self).wf(),
        ensures
            final(self).wf(),
            final(self).spec_schedule() == old(self).spec_schedule(),
            (r is Err) <==> !(old(self).spec_contains(id) && old(self).spec_contains(subtask)),
            match r {
                Ok(_) => {
                    &&& final(self).spec_len() == old(self).spec_len()
                    &&& forall|j: usize|
                        #[trigger] final(self).spec_contains(j) <==> #[trigger] old(self).spec_contains(j)
                    &&& forall|j: usize|
                        old(self).spec_contains(j) ==> (#[trigger] final(self).spec_task(j)).spec_content() == old(self).spec_task(j).spec_content() && final(self).spec_task(j).id == old(self).spec_task(j).id
                    &&& forall|a: usize, b: usize|
                        #![trigger final(self).edge_down(a, b)]
                        #![trigger old(self).edge_down(a, b)]
                        final(self).edge_down(a, b) <==> old(self).edge_down(a, b) && !(a == id
                            && b == subtask)
                    &&& forall|a: usize, b: usize|
                        #![trigger final(self).edge_up(a, b)]
                        #![trigger old(self).edge_up(a, b)]
                        final(self).edge_up(a, b) <==> old(self).edge_up(a, b) && !(a == subtask
                            && b == id)
                },
                Err(e) => e == Error::UnknownTaskId && *final(self) == *old(self),
            },
    {
        if !self.contains_task(id) || !self.contains_task(subtask) {
            return Err(Error::UnknownTaskId);
        }
        if id == subtask {
            let mut t = self.take_task(id);
            remove_value(&mut t.subtasks, subtask);
            remove_value(&mut t.supertasks, id);
            self.put_task(id, t);
        } else {
            let mut t = self.take_task(id);
            remove_value(&mut t.subtasks, subtask);
            self.put_task(id, t);
            proof {
                assert(old(self).spec_task(subtask).wf());
                assert(self.spec_task(subtask) == old(self).spec_task(subtask));
            }
            let mut u = self.take_task(subtask);
            proof {
                assert(u.supertasks@.no_duplicates());
            }
            remove_value(&mut u.supertasks, id);
            self.put_task(subtask, u);
        }
        proof {
            self.lemma_after_edge_removal(*old(self), id, subtask);
        }
        Ok(())
    }

    /// Makes `supertask` a direct supertask of `id`: the same edge pair as
    /// `add_subtask` with the arguments reversed.
    pub fn add_supertask(&mut self, id: usize, supertask: usize) -> (r: Result<(), Error>)
        requires
            old(self).wf(),
        ensures
            final(self).wf(),
            final(self).spec_schedule() == old(self).spec_schedule(),
            (r is Err) <==> !(old(self).spec_contains(id) && old(self).spec_contains(supertask)),
            match r {
                Ok(_) => {
                    &&& final(self).spec_len() == old(self).spec_len()
                    &&& forall|j: usize|
                        #[trigger] final(self).spec_contains(j) <==> #[trigger] old(self).spec_contains(j)
                    &&& forall|j: usize|
                        old(self).spec_contains(j) ==> (#[trigger] final(self).spec_task(j)).spec_content()
                            == old(self).spec_task(j).spec_content() && final(self).spec_task(j).id
                            == old(self).spec_task(j).id
                    &&& forall|a: usize, b: usize|
                        #![trigger final(self).edge_down(a, b)]
                        #![trigger old(self).edge_down(a, b)]
                        final(self).edge_down(a, b) <==> old(self).edge_down(a, b) || (a == supertask
                            && b == id)
                    &&& forall|a: usize, b: usize|
                        #![trigger final(self).edge_up(a, b)]
                        #![trigger old(self).edge_up(a, b)]
                        final(self).edge_up(a, b) <==> old(self).edge_up(a, b) || (a == id
                            && b == supertask)
                },
                Err(e) => e == Error::UnknownTaskId && *final(self) == *old(self),
            },
    {
        self.add_subtask(supertask, id)
    }

    /// Removes the supertask edge pair: the same pair as `remove_subtask`
    /// with the arguments reversed.
    pub fn remove_supertask(&mut self, id: usize, supertask: usize) -> (r: Result<(), Error>)
        requires
            old(self).wf(),
        ensures
            final(self).wf(),
            final(self).spec_schedule() == old(self).spec_schedule(),
            (r is Err) <==> !(old(self).spec_contains(id) && old(self).spec_contains(supertask)),
            match r {
                Ok(_) => {
                    &&& final(self).spec_len() == old(self).spec_len()
                    &&& forall|j: usize|
                        #[trigger] final(self).spec_contains(j) <==> #[trigger] old(self).spec_contains(j)
                    &&& forall|j: usize|
                        old(self).spec_contains(j) ==> (#[trigger] final(self).spec_task(j)).spec_content()
                            == old(self).spec_task(j).spec_content() && final(self).spec_task(j).id
                            == old(self).spec_task(j).id
                    &&& forall|a: usize, b: usize|
                        #![trigger final(self).edge_down(a, b)]
                        #![trigger old(self).edge_down(a, b)]
                        final(self).edge_down(a, b) <==> old(self).edge_down(a, b) && !(a == supertask
                            && b == id)
                    &&& forall|a: usize, b: usize|
                        #![trigger final(self).edge_up(a, b)]
                        #![trigger old(self).edge_up(a, b)]
                        final(self).edge_up(a, b) <==> old(self).edge_up(a, b) && !(a == id
                            && b == supertask)
                },
                Err(e) => e == Error::UnknownTaskId && *final(self) == *old(self),
            },
    {
        self.remove_subtask(supertask, id)
    }

    /// The task itself and every task reachable from it by following
    /// subtask edges downward: exactly the identifiers that
    /// `spec_reaches_down` admits, without duplicates.
    pub fn get_all_children(&self, id: usize) -> (r: Vec<usize>)
        requires
            self.wf(),
            self.spec_contains(id),
        ensures
            r@.no_duplicates(),
            r@.contains(id),
            forall|x: usize|
                #[trigger] r@.contains(x) <==> self.spec_reaches_down(id, x),
            forall|x: usize| #[trigger] r@.contains(x) ==> self.spec_contains(x),
    {
        let mut result: Vec<usize> = Vec::new();
        let mut stack: Vec<usize> = Vec::new();
        result.push(id);
        stack.push(id);
        proof {
            self.lemma_reach_refl(id);
            assert(result@[0] == id);
            assert(stack@[0] == id);
        }
        while stack.len() > 0
            invariant
                self.wf(),
                self.spec_contains(id),
                result@.no_duplicates(),
                result@.contains(id),
                forall|x: usize|
                    #[trigger] result@.contains(x) ==> self.spec_contains(x)
                        && self.spec_reaches_down(id, x),
                forall|k: int| 0 <= k < stack@.len() ==> result@.contains(#[trigger] stack@[k]),
                forall|x: usize, y: usize|
                    result@.contains(x) && !stack@.contains(x) && (#[trigger] self.spec_task(
                        x,
                    ).subtasks@.contains(y)) ==> result@.contains(y),
            decreases self.spec_len() - result@.len(), stack@.len(),
        {
            let ghost pre_stack = stack@;
            let x = stack.pop().unwrap();
            proof {
                assert(pre_stack[pre_stack.len() - 1] == x);
                assert(pre_stack.contains(x));
                assert(result@.contains(x));
                assert(stack@ == pre_stack.drop_last());
                assert forall|u: usize| !stack@.contains(u) && u != x
                    implies !pre_stack.contains(u) by {
                    if pre_stack.contains(u) {
                        let k = choose|k: int| 0 <= k < pre_stack.len() && pre_stack[k] == u;
                        assert(k < pre_stack.len() - 1);
                        assert(stack@[k] == u);
                    }
                }
            }
            let ghost subs = self.spec_task(x).subtasks@;
            let sub_len = match &self.tasks[x] {
                Some(t) => t.subtasks.len(),
                None => 0,
            };
            let ghost pre_result = result@;
            let mut j: usize = 0;
            while j < sub_len
                invariant
                    self.wf(),
                    self.spec_contains(id),
                    self.spec_contains(x),
                    subs == self.spec_task(x).subtasks@,
                    sub_len == subs.len(),
                    j <= sub_len,
                    result@.no_duplicates(),
                    result@.contains(id),
                    result@.contains(x),
                    pre_result.len() <= result@.len(),
                    stack@.len() + pre_result.len() == pre_stack.len() - 1 + result@.len(),
                    forall|y: usize| pre_result.contains(y) ==> result@.contains(y),
                    forall|x2: usize|
                        #[trigger] result@.contains(x2) ==> self.spec_contains(x2)
                            && self.spec_reaches_down(id, x2),
                    forall|k: int|
                        0 <= k < stack@.len() ==> result@.contains(#[trigger] stack@[k]),
                    forall|k: int| 0 <= k < j ==> result@.contains(#[trigger] subs[k]),
                    forall|u: usize, y: usize|
                        result@.contains(u) && !stack@.contains(u) && u != x && (
                        #[trigger] self.spec_task(u).subtasks@.contains(y)) ==> result@.contains(
                            y,
                        ),
                decreases sub_len - j,
            {
                let y = match &self.tasks[x] {
                    Some(t) => t.subtasks[j],
                    None => 0,
                };
                if !contains_value(&result, y) {
                    proof {
                        assert(subs.contains(y));
                        assert(self.edge_down(x, y));
                        assert(self.edge_up(y, x));
                        assert(self.spec_contains(y));
                        self.lemma_reach_step_down(id, x, y);
                        lemma_push_distinct(result@, y);
                    }
                    let ghost rr = result@;
                    let ghost ss = stack@;
                    result.push(y);
                    stack.push(y);
                    proof {
                        assert(result@[result@.len() - 1] == y);
                        assert(stack@[stack@.len() - 1] == y);
                        assert forall|y2: usize| result@.contains(y2) implies rr.contains(y2)
                            || y2 == y by {
                            let k = choose|k: int| 0 <= k < result@.len() && result@[k] == y2;
                            if k < result@.len() - 1 {
                                assert(rr[k] == y2);
                            }
                        }
                        assert forall|y2: usize| rr.contains(y2) implies result@.contains(
                            y2,
                        ) by {
                            let k = choose|k: int| 0 <= k < rr.len() && rr[k] == y2;
                            assert(result@[k] == y2);
                        }
                        assert forall|y2: usize| ss.contains(y2) implies stack@.contains(
                            y2,
                        ) by {
                            let k = choose|k: int| 0 <= k < ss.len() && ss[k] == y2;
                            assert(stack@[k] == y2);
                        }
                        assert forall|k: int|
                            0 <= k < stack@.len() implies result@.contains(
                            #[trigger] stack@[k]) by {
                            if k < stack@.len() - 1 {
                                assert(stack@[k] == ss[k]);
                                assert(rr.contains(ss[k]));
                            }
                        }
                        assert forall|x2: usize| #[trigger] result@.contains(x2)
                            implies self.spec_contains(x2) && self.spec_reaches_down(
                            id,
                            x2,
                        ) by {
                            if x2 != y {
                                assert(rr.contains(x2));
                            }
                        }
                        assert forall|u: usize, y2: usize|
                            result@.contains(u) && !stack@.contains(u) && u != x && (
                            #[trigger] self.spec_task(u).subtasks@.contains(y2))
                            implies result@.contains(y2) by {
                            assert(u != y);
                            assert(rr.contains(u));
                            assert(!ss.contains(u));
                        }
                    }
                }
                j += 1;
            }
            proof {
                assert forall|u: usize, y: usize|
                    result@.contains(u) && !stack@.contains(u) && (#[trigger] self.spec_task(
                        u,
                    ).subtasks@.contains(y)) implies result@.contains(y) by {
                    if u == x {
                        let k = choose|k: int| 0 <= k < subs.len() && subs[k] == y;
                        assert(result@.contains(subs[k]));
                    }
                }
                assert forall|k: int| 0 <= k < result@.len() implies (#[trigger] result@[k])
                    < self.spec_len() by {
                    assert(result@.contains(result@[k]));
                }
                lemma_distinct_bounded(result@, self.spec_len());
            }
        }
        proof {
            assert forall|x: usize| self.spec_reaches_down(id, x) implies result@.contains(
                x,
            ) by {
                let p = choose|p: Seq<usize>|
                    #[trigger] self.linked_down(p) && p.len() >= 1 && p[0] == id && p.last()
                        == x;
                self.lemma_closed_reach_down(result@, p);
            }
        }
        result
    }

    /// The task itself and every task reachable from it by following
    /// supertask edges upward: exactly the identifiers that
    /// `spec_reaches_up` admits, without duplicates.
    pub fn get_all_parents(&self, id: usize) -> (r: Vec<usize>)
        requires
            self.wf(),
            self.spec_contains(id),
        ensures
            r@.no_duplicates(),
            r@.contains(id),
            forall|x: usize|
                #[trigger] r@.contains(x) <==> self.spec_reaches_up(id, x),
            forall|x: usize| #[trigger] r@.contains(x) ==> self.spec_contains(x),
    {
        let mut result: Vec<usize> = Vec::new();
        let mut stack: Vec<usize> = Vec::new();
        result.push(id);
        stack.push(id);
        proof {
            self.lemma_reach_refl(id);
            assert(result@[0] == id);
            assert(stack@[0] == id);
        }
        while stack.len() > 0
            invariant
                self.wf(),
                self.spec_contains(id),
                result@.no_duplicates(),
                result@.contains(id),
                forall|x: usize|
                    #[trigger] result@.contains(x) ==> self.spec_contains(x)
                        && self.spec_reaches_up(id, x),
                forall|k: int| 0 <= k < stack@.len() ==> result@.contains(#[trigger] stack@[k]),
                forall|x: usize, y: usize|
                    result@.contains(x) && !stack@.contains(x) && (#[trigger] self.spec_task(
                        x,
                    ).supertasks@.contains(y)) ==> result@.contains(y),
            decreases self.spec_len() - result@.len(), stack@.len(),
        {
            let ghost pre_stack = stack@;
            let x = stack.pop().unwrap();
            proof {
                assert(pre_stack[pre_stack.len() - 1] == x);
                assert(pre_stack.contains(x));
                assert(result@.contains(x));
                assert(stack@ == pre_stack.drop_last());
                assert forall|u: usize| !stack@.contains(u) && u != x
                    implies !pre_stack.contains(u) by {
                    if pre_stack.contains(u) {
                        let k = choose|k: int| 0 <= k < pre_stack.len() && pre_stack[k] == u;
                        assert(k < pre_stack.len() - 1);
                        assert(stack@[k] == u);
                    }
                }
            }
            let ghost sups = self.spec_task(x).supertasks@;
            let sup_len = match &self.tasks[x] {
                Some(t) => t.supertasks.len(),
                None => 0,
            };
            let ghost pre_result = result@;
            let mut j: usize = 0;
            while j < sup_len
                invariant
                    self.wf(),
                    self.spec_contains(id),
                    self.spec_contains(x),
                    sups == self.spec_task(x).supertasks@,
                    sup_len == sups.len(),
                    j <= sup_len,
                    result@.no_duplicates(),
                    result@.contains(id),
                    result@.contains(x),
                    pre_result.len() <= result@.len(),
                    stack@.len() + pre_result.len() == pre_stack.len() - 1 + result@.len(),
                    forall|y: usize| pre_result.contains(y) ==> result@.contains(y),
                    forall|x2: usize|
                        #[trigger] result@.contains(x2) ==> self.spec_contains(x2)
                            && self.spec_reaches_up(id, x2),
                    forall|k: int|
                        0 <= k < stack@.len() ==> result@.contains(#[trigger] stack@[k]),
                    forall|k: int| 0 <= k < j ==> result@.contains(#[trigger] sups[k]),
                    forall|u: usize, y: usize|
                        result@.contains(u) && !stack@.contains(u) && u != x && (
                        #[trigger] self.spec_task(u).supertasks@.contains(y))
                            ==> result@.contains(y),
                decreases sup_len - j,
            {
                let y = match &self.tasks[x] {
                    Some(t) => t.supertasks[j],
                    None => 0,
                };
                if !contains_value(&result, y) {
                    proof {
                        assert(sups.contains(y));
                        assert(self.edge_up(x, y));
                        assert(self.edge_down(y, x));
                        assert(self.spec_contains(y));
                        self.lemma_reach_step_up(id, x, y);
                        lemma_push_distinct(result@, y);
                    }
                    let ghost rr = result@;
                    let ghost ss = stack@;
                    result.push(y);
                    stack.push(y);
                    proof {
                        assert(result@[result@.len() - 1] == y);
                        assert(stack@[stack@.len() - 1] == y);
                        assert forall|y2: usize| result@.contains(y2) implies rr.contains(y2)
                            || y2 == y by {
                            let k = choose|k: int| 0 <= k < result@.len() && result@[k] == y2;
                            if k < result@.len() - 1 {
                                assert(rr[k] == y2);
                            }
                        }
                        assert forall|y2: usize| rr.contains(y2) implies result@.contains(
                            y2,
                        ) by {
                            let k = choose|k: int| 0 <= k < rr.len() && rr[k] == y2;
                            assert(result@[k] == y2);
                        }
                        assert forall|y2: usize| ss.contains(y2) implies stack@.contains(
                            y2,
                        ) by {
                            let k = choose|k: int| 0 <= k < ss.len() && ss[k] == y2;
                            assert(stack@[k] == y2);
                        }
                        assert forall|k: int|
                            0 <= k < stack@.len() implies result@.contains(
                            #[trigger] stack@[k]) by {
                            if k < stack@.len() - 1 {
                                assert(stack@[k] == ss[k]);
                                assert(rr.contains(ss[k]));
                            }
                        }
                        assert forall|x2: usize| #[trigger] result@.contains(x2)
                            implies self.spec_contains(x2) && self.spec_reaches_up(
                            id,
                            x2,
                        ) by {
                            if x2 != y {
                                assert(rr.contains(x2));
                            }
                        }
                        assert forall|u: usize, y2: usize|
                            result@.contains(u) && !stack@.contains(u) && u != x && (
                            #[trigger] self.spec_task(u).supertasks@.contains(y2))
                            implies result@.contains(y2) by {
                            assert(u != y);
                            assert(rr.contains(u));
                            assert(!ss.contains(u));
                        }
                    }
                }
                j += 1;
            }
            proof {
                assert forall|u: usize, y: usize|
                    result@.contains(u) && !stack@.contains(u) && (#[trigger] self.spec_task(
                        u,
                    ).supertasks@.contains(y)) implies result@.contains(y) by {
                    if u == x {
                        let k = choose|k: int| 0 <= k < sups.len() && sups[k] == y;
                        assert(result@.contains(sups[k]));
                    }
                }
                assert forall|k: int| 0 <= k < result@.len() implies (#[trigger] result@[k])
                    < self.spec_len() by {
                    assert(result@.contains(result@[k]));
                }
                lemma_distinct_bounded(result@, self.spec_len());
            }
        }
        proof {
            assert forall|x: usize| self.spec_reaches_up(id, x) implies result@.contains(
                x,
            ) by {
                let p = choose|p: Seq<usize>|
                    #[trigger] self.linked_up(p) && p.len() >= 1 && p[0] == id && p.last()
                        == x;
                self.lemma_closed_reach_up(result@, p);
            }
        }
        result
    }

    /// Removes the task after detaching it from every subtask and every
    /// supertask: no other task keeps an edge to `id`. Fails with
    /// [`Error::UnknownTaskId`], leaving the graph unchanged, exactly when
    /// `id` is unknown.
    pub fn remove_task(&mut self, id: usize) -> (r: Result<(), Error>)
        requires
            old(self).wf(),
        ensures
            final(self).wf(),
            final(self).spec_schedule() == old(self).spec_schedule(),
            (r is Err) <==> !old(self).spec_contains(id),
            match r {
                Ok(_) => {
                    &&& final(self).spec_len() == old(self).spec_len()
                    &&& forall|j: usize|
                        #[trigger] final(self).spec_contains(j) <==> old(self).spec_contains(j)
                            && j != id
                    &&& forall|j: usize|
                        j != id && old(self).spec_contains(j) ==> (#[trigger] final(self).spec_task(j)).spec_content() == old(self).spec_task(j).spec_content()
                            && final(self).spec_task(j).id == old(self).spec_task(j).id
                    &&& forall|a: usize, b: usize|
                        #![trigger final(self).edge_down(a, b)]
                        #![trigger old(self).edge_down(a, b)]
                        final(self).edge_down(a, b) <==> old(self).edge_down(a, b) && a != id
                            && b != id
                    &&& forall|a: usize, b: usize|
                        #![trigger final(self).edge_up(a, b)]
                        #![trigger old(self).edge_up(a, b)]
                        final(self).edge_up(a, b) <==> old(self).edge_up(a, b) && a != id && b
                            != id
                    &&& task_removed(*old(self), *final(self), id)
                },
                Err(e) => e == Error::UnknownTaskId && *final(self) == *old(self),
            },
    {
        if !self.contains_task(id) {
            return Err(Error::UnknownTaskId);
        }
        let t = self.take_task(id);
        let ghost subs = t.subtasks@;
        let ghost sups = t.supertasks@;
        proof {
            assert(old(self).spec_task(id).wf());
        }
        // Detach from every subtask: drop their supertask references to id.
        let mut i: usize = 0;
        while i < t.subtasks.len()
            invariant
                old(self).wf(),
                old(self).spec_contains(id),
                t == old(self).spec_task(id),
                subs == t.subtasks@,
                sups == t.supertasks@,
                subs.no_duplicates(),
                i <= subs.len(),
                self.spec_schedule() == old(self).spec_schedule(),
                self.spec_len() == old(self).spec_len(),
                !self.spec_contains(id),
                forall|j: usize|
                    j != id ==> (#[trigger] self.spec_contains(j) <==> old(self).spec_contains(j)),
                forall|j: usize|
                    j != id && old(self).spec_contains(j) ==> (#[trigger] self.spec_task(
                        j,
                    )).spec_content() == old(self).spec_task(j).spec_content()
                        && self.spec_task(j).id == old(self).spec_task(j).id
                        && self.spec_task(j).subtasks == old(self).spec_task(j).subtasks
                        && self.spec_task(j).supertasks@.no_duplicates(),
                forall|j: usize, y: usize|
                    j != id && old(self).spec_contains(j) && subs.take(i as int).contains(j)
                        ==> ((#[trigger] self.spec_task(j).supertasks@.contains(y)) <==> old(self).spec_task(j).supertasks@.contains(y) && y != id),
                forall|j: usize|
                    j != id && old(self).spec_contains(j) && !subs.take(i as int).contains(j)
                        ==> (#[trigger] self.spec_task(j)).supertasks == old(self).spec_task(
                        j,
                    ).supertasks,
            decreases subs.len() - i,
        {
            let b = t.subtasks[i];
            proof {
                assert(subs[i as int] == b);
                assert(subs.contains(b));
                assert(old(self).edge_down(id, b));
                assert(old(self).edge_up(b, id));
                assert(subs.take(i as int + 1) =~= subs.take(i as int).push(b));
                assert(!subs.take(i as int).contains(b));
            }
            if b != id {
                proof {
                    assert(self.spec_contains(b));
                    assert(self.spec_task(b).supertasks == old(self).spec_task(b).supertasks);
                }
                let ghost prev = *self;
                let mut u = self.take_task(b);
                remove_value(&mut u.supertasks, id);
                let ghost u1 = u;
                self.put_task(b, u);
                proof {
                    assert(self.spec_tasks().len() == prev.spec_tasks().len());
                    assert(forall|k: int|
                        0 <= k < prev.spec_tasks().len() && k != b ==> self.spec_tasks()[k]
                            == #[trigger] prev.spec_tasks()[k]);
                    assert(self.spec_tasks()[b as int] == Some(u1));
                    assert(self.spec_task(b) == u1);
                    assert(u1.spec_content() == prev.spec_task(b).spec_content());
                    assert(u1.subtasks == prev.spec_task(b).subtasks);
                    assert(subs.take(i as int + 1)[i as int] == b);
                    assert(subs.take(i as int + 1).contains(b));
                    assert forall|j: usize|
                        j != id implies (#[trigger] self.spec_contains(j) <==> old(self).spec_contains(j)) by {
                        if j != b {
                            assert(prev.spec_contains(j) == old(self).spec_contains(j));
                            assert(j < prev.spec_tasks().len() ==> self.spec_tasks()[j as int]
                                == prev.spec_tasks()[j as int]);
                            assert(self.spec_contains(j) == prev.spec_contains(j));
                        } else {
                            assert(prev.spec_contains(b));
                            assert(old(self).spec_contains(b));
                            assert(self.spec_tasks()[b as int] == Some(u1));
                            assert(self.spec_contains(b));
                        }
                    }
                    assert(!self.spec_contains(id));
                    assert forall|j: usize|
                        j != id && old(self).spec_contains(j) implies (#[trigger] self.spec_task(
                        j,
                    )).spec_content() == old(self).spec_task(j).spec_content()
                        && self.spec_task(j).id == old(self).spec_task(j).id
                        && self.spec_task(j).subtasks == old(self).spec_task(j).subtasks
                        && self.spec_task(j).supertasks@.no_duplicates() by {
                        if j != b {
                            assert(self.spec_task(j) == prev.spec_task(j));
                        }
                    }
                    assert forall|j: usize, y: usize|
                        j != id && old(self).spec_contains(j) && subs.take(
                            i as int + 1,
                        ).contains(j) implies ((#[trigger] self.spec_task(
                        j,
                    ).supertasks@.contains(y)) <==> old(self).spec_task(j).supertasks@.contains(
                        y,
                    ) && y != id) by {
                        if j != b {
                            assert(self.spec_task(j) == prev.spec_task(j));
                            let k = choose|k: int|
                                0 <= k < subs.take(i as int + 1).len() && #[trigger] subs.take(
                                    i as int + 1,
                                )[k] == j;
                            assert(k != i);
                            assert(subs.take(i as int)[k] == j);
                            assert(subs.take(i as int).contains(j));
                        }
                    }
                    assert forall|j: usize|
                        j != id && old(self).spec_contains(j) && !subs.take(
                            i as int + 1,
                        ).contains(j) implies (#[trigger] self.spec_task(j)).supertasks == old(self).spec_task(j).supertasks by {
                        assert(j != b);
                        assert(self.spec_task(j) == prev.spec_task(j));
                        if subs.take(i as int).contains(j) {
                            let k = choose|k: int|
                                0 <= k < subs.take(i as int).len() && #[trigger] subs.take(
                                    i as int,
                                )[k] == j;
                            assert(subs.take(i as int + 1)[k] == j);
                            assert(false);
                        }
                    }
                }
            }
            i += 1;
        }
        proof {
            assert(subs.take(subs.len() as int) =~= subs);
            assert forall|j: usize, y: usize| j != id && old(self).spec_contains(j) implies ((
            #[trigger] self.spec_task(j).supertasks@.contains(y)) <==> old(self).spec_task(
                j,
            ).supertasks@.contains(y) && y != id) by {
                if !subs.contains(j) {
                    assert(self.spec_task(j).supertasks == old(self).spec_task(j).supertasks);
                    if y == id && old(self).spec_task(j).supertasks@.contains(id) {
                        assert(old(self).edge_up(j, id));
                        assert(old(self).edge_down(id, j));
                        assert(false);
                    }
                }
            }
        }
        let ghost mid = *self;
        // Detach from every supertask: drop their subtask references to id.
        let mut i2: usize = 0;
        while i2 < t.supertasks.len()
            invariant
                old(self).wf(),
                old(self).spec_contains(id),
                t == old(self).spec_task(id),
                sups == t.supertasks@,
                sups.no_duplicates(),
                i2 <= sups.len(),
                self.spec_schedule() == old(self).spec_schedule(),
                self.spec_len() == old(self).spec_len(),
                !self.spec_contains(id),
                forall|j: usize|
                    j != id ==> (#[trigger] self.spec_contains(j) <==> old(self).spec_contains(j)),
                forall|j: usize|
                    j != id && old(self).spec_contains(j) ==> (#[trigger] self.spec_task(
                        j,
                    )).spec_content() == old(self).spec_task(j).spec_content()
                        && self.spec_task(j).id == old(self).spec_task(j).id
                        && self.spec_task(j).supertasks == mid.spec_task(j).supertasks
                        && self.spec_task(j).subtasks@.no_duplicates(),
                forall|j: usize, y: usize|
                    j != id && old(self).spec_contains(j) ==> ((#[trigger] mid.spec_task(
                        j,
                    ).supertasks@.contains(y)) <==> old(self).spec_task(
                        j,
                    ).supertasks@.contains(y) && y != id),
                forall|j: usize, y: usize|
                    j != id && old(self).spec_contains(j) && sups.take(i2 as int).contains(j)
                        ==> ((#[trigger] self.spec_task(j).subtasks@.contains(y)) <==> old(self).spec_task(j).subtasks@.contains(y) && y != id),
                forall|j: usize|
                    j != id && old(self).spec_contains(j) && !sups.take(i2 as int).contains(j)
                        ==> (#[trigger] self.spec_task(j)).subtasks == old(self).spec_task(
                        j,
                    ).subtasks,
            decreases sups.len() - i2,
        {
            let b = t.supertasks[i2];
            proof {
                assert(sups[i2 as int] == b);
                assert(sups.contains(b));
                assert(old(self).edge_up(id, b));
                assert(old(self).edge_down(b, id));
                assert(sups.take(i2 as int + 1) =~= sups.take(i2 as int).push(b));
                assert(!sups.take(i2 as int).contains(b));
            }
            if b != id {
                proof {
                    assert(self.spec_contains(b));
                    assert(self.spec_task(b).subtasks == old(self).spec_task(b).subtasks);
                }
                let ghost prev = *self;
                let mut u = self.take_task(b);
                remove_value(&mut u.subtasks, id);
                let ghost u1 = u;
                self.put_task(b, u);
                proof {
                    assert(self.spec_tasks().len() == prev.spec_tasks().len());
                    assert(forall|k: int|
                        0 <= k < prev.spec_tasks().len() && k != b ==> self.spec_tasks()[k]
                            == #[trigger] prev.spec_tasks()[k]);
                    assert(self.spec_tasks()[b as int] == Some(u1));
                    assert(self.spec_task(b) == u1);
                    assert(u1.spec_content() == prev.spec_task(b).spec_content());
                    assert(u1.supertasks == prev.spec_task(b).supertasks);
                    assert(sups.take(i2 as int + 1)[i2 as int] == b);
                    assert(sups.take(i2 as int + 1).contains(b));
                    assert forall|j: usize|
                        j != id implies (#[trigger] self.spec_contains(j) <==> old(self).spec_contains(j)) by {
                        if j != b {
                            assert(prev.spec_contains(j) == old(self).spec_contains(j));
                            assert(j < prev.spec_tasks().len() ==> self.spec_tasks()[j as int]
                                == prev.spec_tasks()[j as int]);
                            assert(self.spec_contains(j) == prev.spec_contains(j));
                        } else {
                            assert(prev.spec_contains(b));
                            assert(old(self).spec_contains(b));
                            assert(self.spec_tasks()[b as int] == Some(u1));
                            assert(self.spec_contains(b));
                        }
                    }
                    assert(!self.spec_contains(id));
                    assert forall|j: usize|
                        j != id && old(self).spec_contains(j) implies (#[trigger] self.spec_task(
                        j,
                    )).spec_content() == old(self).spec_task(j).spec_content()
                        && self.spec_task(j).id == old(self).spec_task(j).id
                        && self.spec_task(j).supertasks == mid.spec_task(j).supertasks
                        && self.spec_task(j).subtasks@.no_duplicates() by {
                        if j != b {
                            assert(self.spec_task(j) == prev.spec_task(j));
                        }
                    }
                    assert forall|j: usize, y: usize|
                        j != id && old(self).spec_contains(j) && sups.take(
                            i2 as int + 1,
                        ).contains(j) implies ((#[trigger] self.spec_task(
                        j,
                    ).subtasks@.contains(y)) <==> old(self).spec_task(j).subtasks@.contains(y)
                        && y != id) by {
                        if j != b {
                            assert(self.spec_task(j) == prev.spec_task(j));
                            let k = choose|k: int|
                                0 <= k < sups.take(i2 as int + 1).len() && #[trigger] sups.take(
                                    i2 as int + 1,
                                )[k] == j;
                            assert(k != i2);
                            assert(sups.take(i2 as int)[k] == j);
                            assert(sups.take(i2 as int).contains(j));
                        }
                    }
                    assert forall|j: usize|
                        j != id && old(self).spec_contains(j) && !sups.take(
                            i2 as int + 1,
                        ).contains(j) implies (#[trigger] self.spec_task(j)).subtasks == old(self).spec_task(j).subtasks by {
                        assert(j != b);
                        assert(self.spec_task(j) == prev.spec_task(j));
                        if sups.take(i2 as int).contains(j) {
                            let k = choose|k: int|
                                0 <= k < sups.take(i2 as int).len() && #[trigger] sups.take(
                                    i2 as int,
                                )[k] == j;
                            assert(sups.take(i2 as int + 1)[k] == j);
                            assert(false);
                        }
                    }
                }
            }
            i2 += 1;
        }
        proof {
            assert(sups.take(sups.len() as int) =~= sups);
            assert forall|j: usize, y: usize| j != id && old(self).spec_contains(j) implies ((
            #[trigger] self.spec_task(j).subtasks@.contains(y)) <==> old(self).spec_task(
                j,
            ).subtasks@.contains(y) && y != id) by {
                if !sups.contains(j) {
                    assert(self.spec_task(j).subtasks == old(self).spec_task(j).subtasks);
                    if y == id && old(self).spec_task(j).subtasks@.contains(id) {
                        assert(old(self).edge_down(j, id));
                        assert(old(self).edge_up(id, j));
                        assert(false);
                    }
                }
            }
            assert forall|a: usize, b: usize|
                #![trigger self.edge_down(a, b)]
                #![trigger old(self).edge_down(a, b)]
                self.edge_down(a, b) <==> old(self).edge_down(a, b) && a != id && b != id by {}
            assert forall|a: usize, b: usize|
                #![trigger self.edge_up(a, b)]
                #![trigger old(self).edge_up(a, b)]
                self.edge_up(a, b) <==> old(self).edge_up(a, b) && a != id && b != id by {
                if a != id && old(self).spec_contains(a) {
                    assert(self.spec_task(a).supertasks == mid.spec_task(a).supertasks);
                }
            }
            assert forall|a: usize| self.spec_contains(a) implies (#[trigger] self.spec_task(
                a,
            )).wf() && self.spec_task(a).id == Some(a) by {
                assert(old(self).spec_task(a).wf());
                assert(self.spec_task(a).spec_content() == old(self).spec_task(
                    a,
                ).spec_content());
                assert(self.spec_task(a).subtasks@.no_duplicates());
                assert(mid.spec_task(a).supertasks@.no_duplicates());
            }
            assert forall|a: usize, b: usize| #[trigger] self.edge_down(a, b)
                implies self.edge_up(b, a) by {
                assert(old(self).edge_down(a, b));
                assert(old(self).edge_up(b, a));
            }
            assert forall|a: usize, b: usize| #[trigger] self.edge_up(a, b)
                implies self.edge_down(b, a) by {
                assert(old(self).edge_up(a, b));
                assert(old(self).edge_down(b, a));
            }
        }
        Ok(())
    }

    /// Completes the task: detaches and removes it. Fails with
    /// [`Error::DependencyError`] while any direct subtask remains, and with
    /// [`Error::UnknownTaskId`] when `id` is unknown; a failure leaves the
    /// graph unchanged.
    pub fn complete_task(&mut self, id: usize) -> (r: Result<(), Error>)
        requires
            old(self).wf(),
        ensures
            final(self).wf(),
            final(self).spec_schedule() == old(self).spec_schedule(),
            (r is Err) <==> (!old(self).spec_contains(id) || old(self).spec_task(
                id,
            ).subtasks@.len() > 0),
            match r {
                Ok(_) => {
                    &&& old(self).spec_task(id).subtasks@.len() == 0
                    &&& final(self).spec_len() == old(self).spec_len()
                    &&& forall|j: usize|
                        #[trigger] final(self).spec_contains(j) <==> old(self).spec_contains(j)
                            && j != id
                    &&& forall|j: usize|
                        j != id && old(self).spec_contains(j) ==> (#[trigger] final(self).spec_task(j)).spec_content() == old(self).spec_task(j).spec_content()
                            && final(self).spec_task(j).id == old(self).spec_task(j).id
                    &&& forall|a: usize, b: usize|
                        #![trigger final(self).edge_down(a, b)]
                        #![trigger old(self).edge_down(a, b)]
                        final(self).edge_down(a, b) <==> old(self).edge_down(a, b) && a != id
                            && b != id
                    &&& forall|a: usize, b: usize|
                        #![trigger final(self).edge_up(a, b)]
                        #![trigger old(self).edge_up(a, b)]
                        final(self).edge_up(a, b) <==> old(self).edge_up(a, b) && a != id && b
                            != id
                    &&& task_removed(*old(self), *final(self), id)
                },
                Err(e) => {
                    &&& *final(self) == *old(self)
                    &&& if old(self).spec_contains(id) {
                        e == Error::DependencyError
                    } else {
                        e == Error::UnknownTaskId
                    }
                },
            },
    {
        if !self.contains_task(id) {
            return Err(Error::UnknownTaskId);
        }
        let has_subtasks = match &self.tasks[id] {
            Some(t) => t.subtasks.len() > 0,
            None => false,
        };
        if has_subtasks {
            return Err(Error::DependencyError);
        }
        self.remove_task(id)
    }

    /// Replaces the task's descriptive fields — name, description, times,
    /// stress weight — leaving its identifier and its edges as they were.
    /// The identifier and edges of `content` are ignored. Fails with
    /// [`Error::UnknownTaskId`], leaving the graph unchanged, exactly when
    /// `id` is unknown.
    pub fn modify_task(&mut self, id: usize, content: Task) -> (r: Result<(), Error>)
        requires
            old(self).wf(),
            content.wf(),
        ensures
            final(self).wf(),
            final(self).spec_schedule() == old(self).spec_schedule(),
            (r is Err) <==> !old(self).spec_contains(id),
            match r {
                Ok(_) => {
                    &&& final(self).spec_len() == old(self).spec_len()
                    &&& forall|j: usize|
                        #[trigger] final(self).spec_contains(j) <==> old(self).spec_contains(j)
                    &&& final(self).spec_task(id).spec_content() == content.spec_content()
                    &&& final(self).spec_task(id).id == old(self).spec_task(id).id
                    &&& final(self).spec_task(id).subtasks == old(self).spec_task(id).subtasks
                    &&& final(self).spec_task(id).supertasks == old(self).spec_task(
                        id,
                    ).supertasks
                    &&& forall|j: usize|
                        j != id && old(self).spec_contains(j) ==> #[trigger] final(self).spec_task(j) == old(self).spec_task(j)
                },
                Err(e) => e == Error::UnknownTaskId && *final(self) == *old(self),
            },
    {
        if !self.contains_task(id) {
            return Err(Error::UnknownTaskId);
        }
        let mut t = self.take_task(id);
        t.name = content.name;
        t.description = content.description;
        t.estimated_time = content.estimated_time;
        t.estimated_stress = content.estimated_stress;
        t.start = content.start;
        t.deadline = content.deadline;
        self.put_task(id, t);
        proof {
            assert forall|a: usize, b: usize| #[trigger] self.edge_down(a, b)
                implies self.edge_up(b, a) by {
                assert(old(self).edge_down(a, b));
                assert(old(self).edge_up(b, a));
            }
            assert forall|a: usize, b: usize| #[trigger] self.edge_up(a, b)
                implies self.edge_down(b, a) by {
                assert(old(self).edge_up(a, b));
                assert(old(self).edge_down(b, a));
            }
            assert forall|a: usize| self.spec_contains(a) implies (#[trigger] self.spec_task(
                a,
            )).wf() && self.spec_task(a).id == Some(a) by {
                assert(old(self).spec_task(a).wf());
            }
        }
        Ok(())
    }

    /// Makes `selected` the exact set of direct subtasks of `id`: edges to
    /// unselected subtasks are dissolved and edges to newly selected tasks
    /// are inserted, each pair in both directions at once. Fails with
    /// [`Error::UnknownTaskId`], leaving the graph unchanged, exactly when
    /// `id` or one of the selected tasks is missing.
    pub fn update_subtasks(&mut self, id: usize, selected: &Vec<usize>) -> (r: Result<
        (),
        Error,
    >)
        requires
            old(self).wf(),
        ensures
            final(self).wf(),
            final(self).spec_schedule() == old(self).spec_schedule(),
            (r is Err) <==> (!old(self).spec_contains(id) || exists|k: int|
                0 <= k < selected@.len() && !old(self).spec_contains(#[trigger] selected@[k])),
            match r {
                Ok(_) => {
                    &&& final(self).spec_len() == old(self).spec_len()
                    &&& forall|j: usize|
                        #[trigger] final(self).spec_contains(j) <==> old(self).spec_contains(j)
                    &&& forall|j: usize|
                        old(self).spec_contains(j) ==> (#[trigger] final(self).spec_task(
                            j,
                        )).spec_content() == old(self).spec_task(j).spec_content() && final(self).spec_task(j).id == old(self).spec_task(j).id
                    &&& forall|b: usize|
                        #[trigger] final(self).edge_down(id, b) <==> selected@.contains(b)
                    &&& forall|a: usize, b: usize|
                        a != id ==> (#[trigger] final(self).edge_down(a, b) <==> old(self).edge_down(a, b))
                },
                Err(e) => e == Error::UnknownTaskId && *final(self) == *old(self),
            },
    {
        if !self.contains_task(id) {
            return Err(Error::UnknownTaskId);
        }
        let mut i: usize = 0;
        while i < selected.len()
            invariant
                *self == *old(self),
                old(self).wf(),
                i <= selected@.len(),
                forall|k: int| 0 <= k < i ==> old(self).spec_contains(#[trigger] selected@[k]),
            decreases selected@.len() - i,
        {
            if !self.contains_task(selected[i]) {
                return Err(Error::UnknownTaskId);
            }
            i += 1;
        }
        let current = match self.get_task(id) {
            Some(t) => copy_ids(&t.subtasks),
            None => Vec::new(),
        };
        let ghost cur = current@;
        proof {
            assert(cur == old(self).spec_task(id).subtasks@);
        }
        let mut k: usize = 0;
        while k < current.len()
            invariant
                old(self).wf(),
                old(self).spec_contains(id),
                cur == current@,
                cur == old(self).spec_task(id).subtasks@,
                k <= cur.len(),
                self.wf(),
                self.spec_schedule() == old(self).spec_schedule(),
                self.spec_len() == old(self).spec_len(),
                forall|j: usize|
                    #[trigger] self.spec_contains(j) <==> old(self).spec_contains(j),
                forall|j: usize|
                    old(self).spec_contains(j) ==> (#[trigger] self.spec_task(
                        j,
                    )).spec_content() == old(self).spec_task(j).spec_content()
                        && self.spec_task(j).id == old(self).spec_task(j).id,
                forall|a: usize, b: usize|
                    #![trigger self.edge_down(a, b)]
                    #![trigger old(self).edge_down(a, b)]
                    self.edge_down(a, b) <==> old(self).edge_down(a, b) && !(a == id
                        && cur.take(k as int).contains(b)),
            decreases cur.len() - k,
        {
            let b = current[k];
            proof {
                assert(cur[k as int] == b);
                assert(cur.contains(b));
                assert(old(self).edge_down(id, b));
                assert(cur.take(k as int + 1) =~= cur.take(k as int).push(b));
                assert(cur.take(k as int + 1)[k as int] == b);
                assert(cur.take(k as int + 1).contains(b));
            }
            let ghost mid = *self;
            let r = self.remove_subtask(id, b);
            proof {
                assert(r is Ok);
                assert forall|j: usize| #[trigger] self.spec_contains(j) <==> old(
                    self,
                ).spec_contains(j) by {
                    assert(self.spec_contains(j) <==> mid.spec_contains(j));
                }
                assert forall|j: usize|
                    old(self).spec_contains(j) implies (#[trigger] self.spec_task(
                    j,
                )).spec_content() == old(self).spec_task(j).spec_content() && self.spec_task(
                    j,
                ).id == old(self).spec_task(j).id by {
                    assert(mid.spec_contains(j));
                    assert(self.spec_task(j).spec_content() == mid.spec_task(j).spec_content()
                        && self.spec_task(j).id == mid.spec_task(j).id);
                }
                assert forall|a: usize, b2: usize|
                    #![trigger self.edge_down(a, b2)]
                    #![trigger old(self).edge_down(a, b2)]
                    self.edge_down(a, b2) <==> old(self).edge_down(a, b2) && !(a == id
                        && cur.take(k as int + 1).contains(b2)) by {
                    assert(self.edge_down(a, b2) <==> mid.edge_down(a, b2) && !(a == id && b2
                        == b));
                    if a == id && b2 != b {
                        if cur.take(k as int).contains(b2) {
                            let j = choose|j: int|
                                0 <= j < cur.take(k as int).len() && #[trigger] cur.take(
                                    k as int,
                                )[j] == b2;
                            assert(cur.take(k as int + 1)[j] == b2);
                        }
                        if cur.take(k as int + 1).contains(b2) {
                            let j = choose|j: int|
                                0 <= j < cur.take(k as int + 1).len() && #[trigger] cur.take(
                                    k as int + 1,
                                )[j] == b2;
                            assert(j != k);
                            assert(cur.take(k as int)[j] == b2);
                        }
                    }
                }
            }
            k += 1;
        }
        proof {
            assert(cur.take(cur.len() as int) =~= cur);
            assert forall|b: usize| !self.edge_down(id, b) by {
                if old(self).edge_down(id, b) {
                    assert(cur.contains(b));
                }
            }
        }
        let ghost cleared = *self;
        let mut k2: usize = 0;
        while k2 < selected.len()
            invariant
                old(self).wf(),
                old(self).spec_contains(id),
                cleared.wf(),
                cleared.spec_contains(id),
                k2 <= selected@.len(),
                forall|k: int|
                    0 <= k < selected@.len() ==> old(self).spec_contains(
                        #[trigger] selected@[k],
                    ),
                forall|b: usize| !cleared.edge_down(id, b),
                self.wf(),
                self.spec_schedule() == cleared.spec_schedule(),
                cleared.spec_schedule() == old(self).spec_schedule(),
                self.spec_len() == cleared.spec_len(),
                cleared.spec_len() == old(self).spec_len(),
                forall|j: usize|
                    #[trigger] self.spec_contains(j) <==> cleared.spec_contains(j),
                forall|j: usize|
                    #[trigger] cleared.spec_contains(j) <==> old(self).spec_contains(j),
                forall|j: usize|
                    cleared.spec_contains(j) ==> (#[trigger] self.spec_task(
                        j,
                    )).spec_content() == cleared.spec_task(j).spec_content() && self.spec_task(
                        j,
                    ).id == cleared.spec_task(j).id,
                forall|j: usize|
                    old(self).spec_contains(j) ==> (#[trigger] cleared.spec_task(
                        j,
                    )).spec_content() == old(self).spec_task(j).spec_content()
                        && cleared.spec_task(j).id == old(self).spec_task(j).id,
                forall|a: usize, b: usize|
                    #![trigger self.edge_down(a, b)]
                    #![trigger cleared.edge_down(a, b)]
                    self.edge_down(a, b) <==> cleared.edge_down(a, b) || (a == id
                        && selected@.take(k2 as int).contains(b)),
            decreases selected@.len() - k2,
        {
            let b = selected[k2];
            proof {
                assert(selected@[k2 as int] == b);
                assert(old(self).spec_contains(b));
                assert(selected@.take(k2 as int + 1) =~= selected@.take(k2 as int).push(b));
                assert(selected@.take(k2 as int + 1)[k2 as int] == b);
                assert(selected@.take(k2 as int + 1).contains(b));
            }
            let ghost mid = *self;
            let r = self.add_subtask(id, b);
            proof {
                assert(r is Ok);
                assert forall|j: usize| #[trigger] self.spec_contains(j)
                    <==> cleared.spec_contains(j) by {
                    assert(self.spec_contains(j) <==> mid.spec_contains(j));
                }
                assert forall|j: usize|
                    cleared.spec_contains(j) implies (#[trigger] self.spec_task(
                    j,
                )).spec_content() == cleared.spec_task(j).spec_content() && self.spec_task(
                    j,
                ).id == cleared.spec_task(j).id by {
                    assert(mid.spec_contains(j));
                    assert(self.spec_task(j).spec_content() == mid.spec_task(j).spec_content()
                        && self.spec_task(j).id == mid.spec_task(j).id);
                }
                assert forall|a: usize, b2: usize|
                    #![trigger self.edge_down(a, b2)]
                    #![trigger cleared.edge_down(a, b2)]
                    self.edge_down(a, b2) <==> cleared.edge_down(a, b2) || (a == id
                        && selected@.take(k2 as int + 1).contains(b2)) by {
                    assert(self.edge_down(a, b2) <==> mid.edge_down(a, b2) || (a == id && b2
                        == b));
                    if a == id && b2 != b {
                        if selected@.take(k2 as int).contains(b2) {
                            let j = choose|j: int|
                                0 <= j < selected@.take(k2 as int).len()
                                    && #[trigger] selected@.take(k2 as int)[j] == b2;
                            assert(selected@.take(k2 as int + 1)[j] == b2);
                        }
                        if selected@.take(k2 as int + 1).contains(b2) {
                            let j = choose|j: int|
                                0 <= j < selected@.take(k2 as int + 1).len()
                                    && #[trigger] selected@.take(k2 as int + 1)[j] == b2;
                            assert(j != k2);
                            assert(selected@.take(k2 as int)[j] == b2);
                        }
                    }
                }
            }
            k2 += 1;
        }
        proof {
            assert(selected@.take(selected@.len() as int) =~= selected@);
        }
        Ok(())
    }

    /// Makes `selected` the exact set of direct supertasks of `id`. The
    /// mirror image of `update_subtasks`.
    pub fn update_supertasks(&mut self, id: usize, selected: &Vec<usize>) -> (r: Result<
        (),
        Error,
    >)
        requires
            old(self).wf(),
        ensures
            final(self).wf(),
            final(self).spec_schedule() == old(self).spec_schedule(),
            (r is Err) <==> (!old(self).spec_contains(id) || exists|k: int|
                0 <= k < selected@.len() && !old(self).spec_contains(#[trigger] selected@[k])),
            match r {
                Ok(_) => {
                    &&& final(self).spec_len() == old(self).spec_len()
                    &&& forall|j: usize|
                        #[trigger] final(self).spec_contains(j) <==> old(self).spec_contains(j)
                    &&& forall|j: usize|
                        old(self).spec_contains(j) ==> (#[trigger] final(self).spec_task(
                            j,
                        )).spec_content() == old(self).spec_task(j).spec_content() && final(self).spec_task(j).id == old(self).spec_task(j).id
                    &&& forall|b: usize|
                        #[trigger] final(self).edge_up(id, b) <==> selected@.contains(b)
                    &&& forall|a: usize, b: usize|
                        a != id ==> (#[trigger] final(self).edge_up(a, b) <==> old(self).edge_up(a, b))
                },
                Err(e) => e == Error::UnknownTaskId && *final(self) == *old(self),
            },
    {
        if !self.contains_task(id) {
            return Err(Error::UnknownTaskId);
        }
        let mut i: usize = 0;
        while i < selected.len()
            invariant
                *self == *old(self),
                old(self).wf(),
                i <= selected@.len(),
                forall|k: int| 0 <= k < i ==> old(self).spec_contains(#[trigger] selected@[k]),
            decreases selected@.len() - i,
        {
            if !self.contains_task(selected[i]) {
                return Err(Error::UnknownTaskId);
            }
            i += 1;
        }
        let current = match self.get_task(id) {
            Some(t) => copy_ids(&t.supertasks),
            None => Vec::new(),
        };
        let ghost cur = current@;
        proof {
            assert(cur == old(self).spec_task(id).supertasks@);
        }
        let mut k: usize = 0;
        while k < current.len()
            invariant
                old(self).wf(),
                old(self).spec_contains(id),
                cur == current@,
                cur == old(self).spec_task(id).supertasks@,
                k <= cur.len(),
                self.wf(),
                self.spec_schedule() == old(self).spec_schedule(),
                self.spec_len() == old(self).spec_len(),
                forall|j: usize|
                    #[trigger] self.spec_contains(j) <==> old(self).spec_contains(j),
                forall|j: usize|
                    old(self).spec_contains(j) ==> (#[trigger] self.spec_task(
                        j,
                    )).spec_content() == old(self).spec_task(j).spec_content()
                        && self.spec_task(j).id == old(self).spec_task(j).id,
                forall|a: usize, b: usize|
                    #![trigger self.edge_up(a, b)]
                    #![trigger old(self).edge_up(a, b)]
                    self.edge_up(a, b) <==> old(self).edge_up(a, b) && !(a == id
                        && cur.take(k as int).contains(b)),
            decreases cur.len() - k,
        {
            let b = current[k];
            proof {
                assert(cur[k as int] == b);
                assert(cur.contains(b));
                assert(old(self).edge_up(id, b));
                assert(cur.take(k as int + 1) =~= cur.take(k as int).push(b));
                assert(cur.take(k as int + 1)[k as int] == b);
                assert(cur.take(k as int + 1).contains(b));
            }
            let ghost mid = *self;
            let r = self.remove_supertask(id, b);
            proof {
                assert(r is Ok);
                assert forall|j: usize| #[trigger] self.spec_contains(j) <==> old(
                    self,
                ).spec_contains(j) by {
                    assert(self.spec_contains(j) <==> mid.spec_contains(j));
                }
                assert forall|j: usize|
                    old(self).spec_contains(j) implies (#[trigger] self.spec_task(
                    j,
                )).spec_content() == old(self).spec_task(j).spec_content() && self.spec_task(
                    j,
                ).id == old(self).spec_task(j).id by {
                    assert(mid.spec_contains(j));
                    assert(self.spec_task(j).spec_content() == mid.spec_task(j).spec_content()
                        && self.spec_task(j).id == mid.spec_task(j).id);
                }
                assert forall|a: usize, b2: usize|
                    #![trigger self.edge_up(a, b2)]
                    #![trigger old(self).edge_up(a, b2)]
                    self.edge_up(a, b2) <==> old(self).edge_up(a, b2) && !(a == id
                        && cur.take(k as int + 1).contains(b2)) by {
                    assert(self.edge_up(a, b2) <==> mid.edge_up(a, b2) && !(a == id && b2
                        == b));
                    if a == id && b2 != b {
                        if cur.take(k as int).contains(b2) {
                            let j = choose|j: int|
                                0 <= j < cur.take(k as int).len() && #[trigger] cur.take(
                                    k as int,
                                )[j] == b2;
                            assert(cur.take(k as int + 1)[j] == b2);
                        }
                        if cur.take(k as int + 1).contains(b2) {
                            let j = choose|j: int|
                                0 <= j < cur.take(k as int + 1).len() && #[trigger] cur.take(
                                    k as int + 1,
                                )[j] == b2;
                            assert(j != k);
                            assert(cur.take(k as int)[j] == b2);
                        }
                    }
                }
            }
            k += 1;
        }
        proof {
            assert(cur.take(cur.len() as int) =~= cur);
            assert forall|b: usize| !self.edge_up(id, b) by {
                if old(self).edge_up(id, b) {
                    assert(cur.contains(b));
                }
            }
        }
        let ghost cleared = *self;
        let mut k2: usize = 0;
        while k2 < selected.len()
            invariant
                old(self).wf(),
                old(self).spec_contains(id),
                cleared.wf(),
                cleared.spec_contains(id),
                k2 <= selected@.len(),
                forall|k: int|
                    0 <= k < selected@.len() ==> old(self).spec_contains(
                        #[trigger] selected@[k],
                    ),
                forall|b: usize| !cleared.edge_up(id, b),
                self.wf(),
                self.spec_schedule() == cleared.spec_schedule(),
                cleared.spec_schedule() == old(self).spec_schedule(),
                self.spec_len() == cleared.spec_len(),
                cleared.spec_len() == old(self).spec_len(),
                forall|j: usize|
                    #[trigger] self.spec_contains(j) <==> cleared.spec_contains(j),
                forall|j: usize|
                    #[trigger] cleared.spec_contains(j) <==> old(self).spec_contains(j),
                forall|j: usize|
                    cleared.spec_contains(j) ==> (#[trigger] self.spec_task(
                        j,
                    )).spec_content() == cleared.spec_task(j).spec_content() && self.spec_task(
                        j,
                    ).id == cleared.spec_task(j).id,
                forall|j: usize|
                    old(self).spec_contains(j) ==> (#[trigger] cleared.spec_task(
                        j,
                    )).spec_content() == old(self).spec_task(j).spec_content()
                        && cleared.spec_task(j).id == old(self).spec_task(j).id,
                forall|a: usize, b: usize|
                    #![trigger self.edge_up(a, b)]
                    #![trigger cleared.edge_up(a, b)]
                    self.edge_up(a, b) <==> cleared.edge_up(a, b) || (a == id
                        && selected@.take(k2 as int).contains(b)),
            decreases selected@.len() - k2,
        {
            let b = selected[k2];
            proof {
                assert(selected@[k2 as int] == b);
                assert(old(self).spec_contains(b));
                assert(selected@.take(k2 as int + 1) =~= selected@.take(k2 as int).push(b));
                assert(selected@.take(k2 as int + 1)[k2 as int] == b);
                assert(selected@.take(k2 as int + 1).contains(b));
            }
            let ghost mid = *self;
            let r = self.add_supertask(id, b);
            proof {
                assert(r is Ok);
                assert forall|j: usize| #[trigger] self.spec_contains(j)
                    <==> cleared.spec_contains(j) by {
                    assert(self.spec_contains(j) <==> mid.spec_contains(j));
                }
                assert forall|j: usize|
                    cleared.spec_contains(j) implies (#[trigger] self.spec_task(
                    j,
                )).spec_content() == cleared.spec_task(j).spec_content() && self.spec_task(
                    j,
                ).id == cleared.spec_task(j).id by {
                    assert(mid.spec_contains(j));
                    assert(self.spec_task(j).spec_content() == mid.spec_task(j).spec_content()
                        && self.spec_task(j).id == mid.spec_task(j).id);
                }
                assert forall|a: usize, b2: usize|
                    #![trigger self.edge_up(a, b2)]
                    #![trigger cleared.edge_up(a, b2)]
                    self.edge_up(a, b2) <==> cleared.edge_up(a, b2) || (a == id
                        && selected@.take(k2 as int + 1).contains(b2)) by {
                    assert(self.edge_up(a, b2) <==> mid.edge_up(a, b2) || (a == id && b2
                        == b));
                    if a == id && b2 != b {
                        if selected@.take(k2 as int).contains(b2) {
                            let j = choose|j: int|
                                0 <= j < selected@.take(k2 as int).len()
                                    && #[trigger] selected@.take(k2 as int)[j] == b2;
                            assert(selected@.take(k2 as int + 1)[j] == b2);
                        }
                        if selected@.take(k2 as int + 1).contains(b2) {
                            let j = choose|j: int|
                                0 <= j < selected@.take(k2 as int + 1).len()
                                    && #[trigger] selected@.take(k2 as int + 1)[j] == b2;
                            assert(j != k2);
                            assert(selected@.take(k2 as int)[j] == b2);
                        }
                    }
                }
            }
            k2 += 1;
        }
        proof {
            assert(selected@.take(selected@.len() as int) =~= selected@);
        }
        Ok(())
    }

    /// A chain of tasks each a direct subtask of the one before it.
    pub open spec fn linked_down(self, p: Seq<usize>) -> bool {
        (forall|k: int| 0 <= k < p.len() ==> self.spec_contains(#[trigger] p[k]))
        && (forall|k: int|
            0 <= k < p.len() - 1 ==> self.spec_task(#[trigger] p[k]).subtasks@.contains(
                p[k + 1],
            ))
    }

    /// A chain of tasks each a direct supertask of the one before it.
    pub open spec fn linked_up(self, p: Seq<usize>) -> bool {
        (forall|k: int| 0 <= k < p.len() ==> self.spec_contains(#[trigger] p[k]))
        && (forall|k: int|
            0 <= k < p.len() - 1 ==> self.spec_task(#[trigger] p[k]).supertasks@.contains(
                p[k + 1],
            ))
    }

    /// `b` is `a` or reachable from `a` by following subtask edges.
    pub open spec fn spec_reaches_down(self, a: usize, b: usize) -> bool {
        exists|p: Seq<usize>|
            #[trigger] self.linked_down(p) && p.len() >= 1 && p[0] == a && p.last() == b
    }

    /// `b` is `a` or reachable from `a` by following supertask edges.
    pub open spec fn spec_reaches_up(self, a: usize, b: usize) -> bool {
        exists|p: Seq<usize>|
            #[trigger] self.linked_up(p) && p.len() >= 1 && p[0] == a && p.last() == b
    }

    /// Law: every present task reaches itself, in both directions.
    pub proof fn lemma_reach_refl(self, a: usize)
        requires
            self.spec_contains(a),
        ensures
            self.spec_reaches_down(a, a),
            self.spec_reaches_up(a, a),
    {
        let p = seq![a];
        assert(self.linked_down(p));
        assert(self.linked_up(p));
        assert(p[0] == a && p.last() == a);
    }

    /// Reachability extends along one more subtask edge.
    proof fn lemma_reach_step_down(self, a: usize, b: usize, c: usize)
        requires
            self.spec_reaches_down(a, b),
            self.spec_contains(c),
            self.spec_task(b).subtasks@.contains(c),
        ensures
            self.spec_reaches_down(a, c),
    {
        let p = choose|p: Seq<usize>|
            #[trigger] self.linked_down(p) && p.len() >= 1 && p[0] == a && p.last() == b;
        let q = p.push(c);
        assert forall|k: int| 0 <= k < q.len() implies self.spec_contains(#[trigger] q[k]) by {
            if k < p.len() {
                assert(q[k] == p[k]);
            }
        }
        assert forall|k: int| 0 <= k < q.len() - 1 implies self.spec_task(
            #[trigger] q[k],
        ).subtasks@.contains(q[k + 1]) by {
            if k < p.len() - 1 {
                assert(q[k] == p[k] && q[k + 1] == p[k + 1]);
            } else {
                assert(q[k] == p.last() && q[k + 1] == c);
            }
        }
        assert(self.linked_down(q) && q[0] == a && q.last() == c);
    }

    /// Reachability extends along one more supertask edge.
    proof fn lemma_reach_step_up(self, a: usize, b: usize, c: usize)
        requires
            self.spec_reaches_up(a, b),
            self.spec_contains(c),
            self.spec_task(b).supertasks@.contains(c),
        ensures
            self.spec_reaches_up(a, c),
    {
        let p = choose|p: Seq<usize>|
            #[trigger] self.linked_up(p) && p.len() >= 1 && p[0] == a && p.last() == b;
        let q = p.push(c);
        assert forall|k: int| 0 <= k < q.len() implies self.spec_contains(#[trigger] q[k]) by {
            if k < p.len() {
                assert(q[k] == p[k]);
            }
        }
        assert forall|k: int| 0 <= k < q.len() - 1 implies self.spec_task(
            #[trigger] q[k],
        ).supertasks@.contains(q[k + 1]) by {
            if k < p.len() - 1 {
                assert(q[k] == p[k] && q[k + 1] == p[k + 1]);
            } else {
                assert(q[k] == p.last() && q[k + 1] == c);
            }
        }
        assert(self.linked_up(q) && q[0] == a && q.last() == c);
    }

    /// A set that holds the start of a subtask chain and is closed under
    /// subtask edges holds the chain's end.
    proof fn lemma_closed_reach_down(self, r: Seq<usize>, p: Seq<usize>)
        requires
            self.linked_down(p),
            p.len() >= 1,
            r.contains(p[0]),
            forall|x: usize, y: usize|
                r.contains(x) && self.spec_contains(x) && (#[trigger] self.spec_task(
                    x,
                ).subtasks@.contains(y)) ==> r.contains(y),
        ensures
            r.contains(p.last()),
        decreases p.len(),
    {
        if p.len() > 1 {
            let q = p.drop_last();
            assert forall|k: int| 0 <= k < q.len() implies self.spec_contains(
                #[trigger] q[k],
            ) by {
                assert(q[k] == p[k]);
            }
            assert forall|k: int| 0 <= k < q.len() - 1 implies self.spec_task(
                #[trigger] q[k],
            ).subtasks@.contains(q[k + 1]) by {
                assert(q[k] == p[k] && q[k + 1] == p[k + 1]);
            }
            self.lemma_closed_reach_down(r, q);
            assert(self.spec_task(p[p.len() - 2]).subtasks@.contains(p.last()));
        }
    }

    /// A set that holds the start of a supertask chain and is closed under
    /// supertask edges holds the chain's end.
    proof fn lemma_closed_reach_up(self, r: Seq<usize>, p: Seq<usize>)
        requires
            self.linked_up(p),
            p.len() >= 1,
            r.contains(p[0]),
            forall|x: usize, y: usize|
                r.contains(x) && self.spec_contains(x) && (#[trigger] self.spec_task(
                    x,
                ).supertasks@.contains(y)) ==> r.contains(y),
        ensures
            r.contains(p.last()),
        decreases p.len(),
    {
        if p.len() > 1 {
            let q = p.drop_last();
            assert forall|k: int| 0 <= k < q.len() implies self.spec_contains(
                #[trigger] q[k],
            ) by {
                assert(q[k] == p[k]);
            }
            assert forall|k: int| 0 <= k < q.len() - 1 implies self.spec_task(
                #[trigger] q[k],
            ).supertasks@.contains(q[k + 1]) by {
                assert(q[k] == p[k] && q[k + 1] == p[k + 1]);
            }
            self.lemma_closed_reach_up(r, q);
            assert(self.spec_task(p[p.len() - 2]).supertasks@.contains(p.last()));
        }
    }

    /// Law: removing a task detaches it everywhere. After the removal of
    /// `r` — described by [`task_removed`], which is what
    /// `remove_task` and `complete_task` ensure on success — a surviving
    /// subtask `c` no longer names `r` as a supertask, a surviving
    /// supertask `p` no longer names `r` as a subtask, and when every
    /// upward chain from `c` to `p` passed through `r`, `p` is no longer
    /// an ancestor of `c`. The surviving tasks must be distinct from `r`:
    /// a self-loop on `r` leaves nothing behind to detach.
    pub proof fn lemma_removal_detaches(pre: List, post: List, r: usize, c: usize, p: usize)
        requires
            task_removed(pre, post, r),
            c != r,
            p != r,
            forall|q: Seq<usize>|
                #[trigger] pre.linked_up(q) && q.len() >= 1 && q[0] == c && q.last() == p
                    ==> q.contains(r),
        ensures
            !post.edge_up(c, r),
            !post.edge_down(p, r),
            !post.spec_reaches_up(c, p),
    {
        if post.spec_reaches_up(c, p) {
            let q = choose|q: Seq<usize>|
                #[trigger] post.linked_up(q) && q.len() >= 1 && q[0] == c && q.last() == p;
            assert forall|k: int| 0 <= k < q.len() implies pre.spec_contains(#[trigger] q[k])
                && q[k] != r by {
                assert(post.spec_contains(q[k]));
            }
            assert forall|k: int| 0 <= k < q.len() - 1 implies pre.spec_task(
                #[trigger] q[k],
            ).supertasks@.contains(q[k + 1]) by {
                assert(post.edge_up(q[k], q[k + 1]));
                assert(pre.edge_up(q[k], q[k + 1]));
            }
            assert(pre.linked_up(q));
            assert(q.contains(r));
            let k = choose|k: int| 0 <= k < q.len() && q[k] == r;
            assert(q[k] != r);
            assert(false);
        }
    }

    /// After an edge edit that touched only the `subtasks` list of `id` and
    /// the `supertasks` list of `subtask`, everything else is as it was,
    /// and the graph invariant holds again provided the edit kept the two
    /// lists reciprocal.
    proof fn lemma_after_edge_change(self, pre: List, id: usize, subtask: usize)
        requires
            pre.wf(),
            pre.spec_contains(id),
            pre.spec_contains(subtask),
            self.spec_schedule() == pre.spec_schedule(),
            self.spec_tasks().len() == pre.spec_tasks().len(),
            forall|j: usize|
                #[trigger] self.spec_contains(j) <==> #[trigger] pre.spec_contains(j),
            forall|j: usize|
                pre.spec_contains(j) ==> (#[trigger] self.spec_task(j)).spec_content()
                    == pre.spec_task(j).spec_content() && self.spec_task(j).id == pre.spec_task(
                    j,
                ).id,
            forall|j: usize|
                pre.spec_contains(j) && j != id ==> (#[trigger] self.spec_task(j)).subtasks
                    == pre.spec_task(j).subtasks,
            forall|j: usize|
                pre.spec_contains(j) && j != subtask ==> (#[trigger] self.spec_task(
                    j,
                )).supertasks == pre.spec_task(j).supertasks,
            self.spec_task(id).subtasks@.no_duplicates(),
            self.spec_task(subtask).supertasks@.no_duplicates(),
            forall|y: usize|
                #[trigger] self.spec_task(id).subtasks@.contains(y) <==> pre.spec_task(
                    id,
                ).subtasks@.contains(y) || y == subtask,
            forall|y: usize|
                #[trigger] self.spec_task(subtask).supertasks@.contains(y) <==> pre.spec_task(
                    subtask,
                ).supertasks@.contains(y) || y == id,
        ensures
            self.wf(),
            forall|a: usize, b: usize|
                #![trigger self.edge_down(a, b)]
                #![trigger pre.edge_down(a, b)]
                self.edge_down(a, b) <==> pre.edge_down(a, b) || (a == id && b == subtask),
            forall|a: usize, b: usize|
                #![trigger self.edge_up(a, b)]
                #![trigger pre.edge_up(a, b)]
                self.edge_up(a, b) <==> pre.edge_up(a, b) || (a == subtask && b == id),
    {
        assert forall|a: usize, b: usize|
            #![trigger self.edge_down(a, b)]
            #![trigger pre.edge_down(a, b)]
            self.edge_down(a, b) <==> pre.edge_down(a, b) || (a == id && b == subtask) by {
            if a != id && pre.spec_contains(a) {
                assert(self.spec_task(a).subtasks == pre.spec_task(a).subtasks);
            }
        }
        assert forall|a: usize, b: usize|
            #![trigger self.edge_up(a, b)]
            #![trigger pre.edge_up(a, b)]
            self.edge_up(a, b) <==> pre.edge_up(a, b) || (a == subtask && b == id) by {
            if a != subtask && pre.spec_contains(a) {
                assert(self.spec_task(a).supertasks == pre.spec_task(a).supertasks);
            }
        }
        assert forall|a: usize| self.spec_contains(a) implies (#[trigger] self.spec_task(
            a,
        )).wf() && self.spec_task(a).id == Some(a) by {
            assert(pre.spec_task(a).wf());
            assert(self.spec_task(a).spec_content() == pre.spec_task(a).spec_content());
            if a != id {
                assert(self.spec_task(a).subtasks == pre.spec_task(a).subtasks);
            }
            if a != subtask {
                assert(self.spec_task(a).supertasks == pre.spec_task(a).supertasks);
            }
        }
        assert forall|a: usize, b: usize| #[trigger] self.edge_down(a, b) implies self.edge_up(
            b,
            a,
        ) by {
            if a == id && b == subtask {
            } else {
                assert(pre.edge_down(a, b));
                assert(pre.edge_up(b, a));
            }
        }
        assert forall|a: usize, b: usize| #[trigger] self.edge_up(a, b) implies self.edge_down(
            b,
            a,
        ) by {
            if a == subtask && b == id {
            } else {
                assert(pre.edge_up(a, b));
                assert(pre.edge_down(b, a));
            }
        }
    }

    /// Counterpart of `lemma_after_edge_change` for an edit that removed
    /// the pair instead.
    proof fn lemma_after_edge_removal(self, pre: List, id: usize, subtask: usize)
        requires
            pre.wf(),
            pre.spec_contains(id),
            pre.spec_contains(subtask),
            self.spec_schedule() == pre.spec_schedule(),
            self.spec_tasks().len() == pre.spec_tasks().len(),
            forall|j: usize|
                #[trigger] self.spec_contains(j) <==> #[trigger] pre.spec_contains(j),
            forall|j: usize|
                pre.spec_contains(j) ==> (#[trigger] self.spec_task(j)).spec_content()
                    == pre.spec_task(j).spec_content() && self.spec_task(j).id == pre.spec_task(
                    j,
                ).id,
            forall|j: usize|
                pre.spec_contains(j) && j != id ==> (#[trigger] self.spec_task(j)).subtasks
                    == pre.spec_task(j).subtasks,
            forall|j: usize|
                pre.spec_contains(j) && j != subtask ==> (#[trigger] self.spec_task(
                    j,
                )).supertasks == pre.spec_task(j).supertasks,
            self.spec_task(id).subtasks@.no_duplicates(),
            self.spec_task(subtask).supertasks@.no_duplicates(),
            forall|y: usize|
                #[trigger] self.spec_task(id).subtasks@.contains(y) <==> pre.spec_task(
                    id,
                ).subtasks@.contains(y) && y != subtask,
            forall|y: usize|
                #[trigger] self.spec_task(subtask).supertasks@.contains(y) <==> pre.spec_task(
                    subtask,
                ).supertasks@.contains(y) && y != id,
        ensures
            self.wf(),
            forall|a: usize, b: usize|
                #![trigger self.edge_down(a, b)]
                #![trigger pre.edge_down(a, b)]
                self.edge_down(a, b) <==> pre.edge_down(a, b) && !(a == id && b == subtask),
            forall|a: usize, b: usize|
                #![trigger self.edge_up(a, b)]
                #![trigger pre.edge_up(a, b)]
                self.edge_up(a, b) <==> pre.edge_up(a, b) && !(a == subtask && b == id),
    {
        assert forall|a: usize, b: usize|
            #![trigger self.edge_down(a, b)]
            #![trigger pre.edge_down(a, b)]
            self.edge_down(a, b) <==> pre.edge_down(a, b) && !(a == id && b == subtask) by {
            if a != id && pre.spec_contains(a) {
                assert(self.spec_task(a).subtasks == pre.spec_task(a).subtasks);
            }
        }
        assert forall|a: usize, b: usize|
            #![trigger self.edge_up(a, b)]
            #![trigger pre.edge_up(a, b)]
            self.edge_up(a, b) <==> pre.edge_up(a, b) && !(a == subtask && b == id) by {
            if a != subtask && pre.spec_contains(a) {
                assert(self.spec_task(a).supertasks == pre.spec_task(a).supertasks);
            }
        }
        assert forall|a: usize| self.spec_contains(a) implies (#[trigger] self.spec_task(
            a,
        )).wf() && self.spec_task(a).id == Some(a) by {
            assert(pre.spec_task(a).wf());
            assert(self.spec_task(a).spec_content() == pre.spec_task(a).spec_content());
            if a != id {
                assert(self.spec_task(a).subtasks == pre.spec_task(a).subtasks);
            }
            if a != subtask {
                assert(self.spec_task(a).supertasks == pre.spec_task(a).supertasks);
            }
        }
        assert forall|a: usize, b: usize| #[trigger] self.edge_down(a, b) implies self.edge_up(
            b,
            a,
        ) by {
            assert(pre.edge_down(a, b));
            assert(pre.edge_up(b, a));
        }
        assert forall|a: usize, b: usize| #[trigger] self.edge_up(a, b) implies self.edge_down(
            b,
            a,
        ) by {
            assert(pre.edge_up(a, b));
            assert(pre.edge_down(b, a));
        }
    }
}

} // verus!
