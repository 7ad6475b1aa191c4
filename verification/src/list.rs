//! An ordered list of tasks that, when grouping is enabled, keeps every
//! pending task ahead of every completed one, with `first_done_index`
//! marking the boundary. Building, inserting, toggling, replacing and
//! deleting all maintain the partition.
use vstd::prelude::*;

use crate::date::Date;
use crate::recur::spec_spawn_result;
use crate::tasks::{done_marker, spec_new_text, Task};
use crate::text::{starts_with, trim};
use crate::toggle::{spec_done_text, spec_pending_text};

verus! {

/// The sentinel for `first_done_index` while grouping is disabled.
pub open spec fn ungrouped() -> usize {
    usize::MAX
}

/// A line becomes a task at all: not blank, and not a bare done marker.
pub open spec fn keep_line(l: Seq<char>) -> bool {
    trim(l).len() > 0 && trim(l) != seq!['x']
}

/// The text and done flag a line parses to.
pub open spec fn new_model(l: Seq<char>) -> (Seq<char>, bool) {
    (spec_new_text(l), starts_with(trim(l), done_marker()))
}

/// The text and done flag of each task, in order.
pub open spec fn texts_of(tasks: Seq<Task>) -> Seq<(Seq<char>, bool)> {
    tasks.map(|i: int, t: Task| (t.text@, t.done))
}

/// The models of the kept lines whose done flag is `want_done`, in order.
pub open spec fn sel_models(lines: Seq<Seq<char>>, want_done: bool) -> Seq<(Seq<char>, bool)>
    decreases lines.len(),
{
    if lines.len() == 0 {
        Seq::empty()
    } else {
        let m = sel_models(lines.drop_last(), want_done);
        let l = lines.last();
        if keep_line(l) && new_model(l).1 == want_done {
            m.push(new_model(l))
        } else {
            m
        }
    }
}

/// The models of all kept lines, in order.
pub open spec fn all_models(lines: Seq<Seq<char>>) -> Seq<(Seq<char>, bool)>
    decreases lines.len(),
{
    if lines.len() == 0 {
        Seq::empty()
    } else {
        let m = all_models(lines.drop_last());
        let l = lines.last();
        if keep_line(l) {
            m.push(new_model(l))
        } else {
            m
        }
    }
}

pub struct TaskList {
    pub tasks: Vec<Task>,
    pub first_done_index: usize,
    pub grouping: bool,
}

impl TaskList {
    /// The partition invariant: with grouping enabled, tasks before
    /// `first_done_index` are pending and tasks from it on are done;
    /// with grouping disabled the index is the sentinel. Every task is
    /// well formed.
    pub open spec fn wf(self) -> bool {
        &&& (forall|i: int| 0 <= i < self.tasks@.len() ==> (#[trigger] self.tasks@[i]).wf())
        &&& if self.grouping {
            &&& self.first_done_index <= self.tasks@.len()
            &&& forall|i: int|
                0 <= i < self.tasks@.len() ==> ((#[trigger] self.tasks@[i]).done <==> i
                    >= self.first_done_index)
        } else {
            self.first_done_index == ungrouped()
        }
    }

    /// The number of tasks.
    pub fn len(&self) -> (n: usize)
        ensures
            n == self.tasks@.len(),
    {
        self.tasks.len()
    }

    /// An empty list.
    pub fn new(grouping: bool) -> (r: TaskList)
        ensures
            r.wf(),
            r.grouping == grouping,
            r.tasks@.len() == 0,
            grouping ==> r.first_done_index == 0,
    {
        TaskList {
            tasks: Vec::new(),
            first_done_index: if grouping {
                0
            } else {
                usize::MAX
            },
            grouping,
        }
    }

    /// Builds a list from raw lines, dropping blank lines and bare `x`
    /// markers. With grouping enabled the kept tasks are stably
    /// partitioned, pending first.
    pub fn from_lines(lines: &Vec<String>, grouping: bool) -> (r: TaskList)
        ensures
            r.wf(),
            r.grouping == grouping,
            grouping ==> texts_of(r.tasks@) == sel_models(lines.deep_view(), false) + sel_models(
                lines.deep_view(),
                true,
            ) && r.first_done_index == sel_models(lines.deep_view(), false).len(),
            !grouping ==> texts_of(r.tasks@) == all_models(lines.deep_view()),
    {
        let ghost lv = lines.deep_view();
        let mut pend: Vec<Task> = Vec::new();
        let mut dones: Vec<Task> = Vec::new();
        let mut i: usize = 0;
        proof {
            assert(lv.take(0) =~= Seq::<Seq<char>>::empty());
            assert(texts_of(pend@) =~= Seq::<(Seq<char>, bool)>::empty());
            assert(texts_of(dones@) =~= Seq::<(Seq<char>, bool)>::empty());
        }
        while i < lines.len()
            invariant
                i <= lv.len(),
                lines.deep_view() == lv,
                lines@.len() == lv.len(),
                forall|j: int| 0 <= j < pend@.len() ==> (#[trigger] pend@[j]).wf(),
                forall|j: int| 0 <= j < dones@.len() ==> (#[trigger] dones@[j]).wf(),
                grouping ==> forall|j: int| 0 <= j < pend@.len() ==> !(#[trigger] pend@[j]).done,
                forall|j: int| 0 <= j < dones@.len() ==> (#[trigger] dones@[j]).done,
                grouping ==> texts_of(pend@) == sel_models(lv.take(i as int), false),
                grouping ==> texts_of(dones@) == sel_models(lv.take(i as int), true),
                !grouping ==> texts_of(pend@) == all_models(lv.take(i as int)) && dones@.len()
                    == 0,
            decreases lv.len() - i,
        {
            let ghost pv0 = texts_of(pend@);
            let ghost dv0 = texts_of(dones@);
            let line = &lines[i];
            proof {
                assert(line@ == lv[i as int]);
                assert(lv.take(i + 1).drop_last() =~= lv.take(i as int));
                assert(lv.take(i + 1).last() == lv[i as int]);
            }
            let t = crate::tasks::Task::new(line.as_str());
            let keep = {
                let tr = crate::text::trim_vec(&crate::text::str_to_chars(line.as_str()));
                if tr.len() == 0 {
                    false
                } else if tr.len() == 1 && tr[0] == 'x' {
                    proof {
                        assert(tr@ =~= seq!['x']);
                    }
                    false
                } else {
                    proof {
                        if trim(line@) == seq!['x'] {
                            assert(tr@.len() == 1 && tr@[0] == 'x');
                        }
                    }
                    true
                }
            };
            proof {
                assert(keep == keep_line(lv[i as int]));
            }
            if keep {
                if grouping && t.done {
                    dones.push(t);
                    proof {
                        assert(texts_of(dones@) =~= dv0.push(new_model(lv[i as int])));
                        assert(texts_of(pend@) =~= pv0);
                    }
                } else {
                    pend.push(t);
                    proof {
                        assert(texts_of(pend@) =~= pv0.push(new_model(lv[i as int])));
                        assert(texts_of(dones@) =~= dv0);
                    }
                }
            }
            i += 1;
        }
        proof {
            assert(lv.take(i as int) =~= lv);
        }
        let fdi: usize = if grouping {
            pend.len()
        } else {
            usize::MAX
        };
        let ghost pv = texts_of(pend@);
        let ghost dv = texts_of(dones@);
        let mut tasks = pend;
        tasks.append(&mut dones);
        proof {
            assert(texts_of(tasks@) =~= pv + dv);
            if !grouping {
                assert(texts_of(tasks@) =~= all_models(lv));
            }
        }
        TaskList { tasks, first_done_index: fdi, grouping }
    }
}


impl TaskList {
    /// Appends a task; with grouping enabled a pending task is placed at
    /// the partition boundary instead, keeping pending tasks first.
    pub fn push_task(&mut self, task: Task)
        requires
            old(self).wf(),
            task.wf(),
        ensures
            final(self).wf(),
            final(self).grouping == old(self).grouping,
            (!old(self).grouping || task.done) ==> final(self).tasks@ == old(self).tasks@.push(
                task,
            ) && final(self).first_done_index == old(self).first_done_index,
            (old(self).grouping && !task.done) ==> final(self).tasks@ == old(self).tasks@.insert(
                old(self).first_done_index as int,
                task,
            ) && final(self).first_done_index == old(self).first_done_index + 1,
    {
        if self.grouping && !task.done {
            let f = self.first_done_index;
            self.tasks.insert(f, task);
            proof {
                assert(self.tasks.len() == self.tasks@.len());
            }
            self.first_done_index = f + 1;
            proof {
                assert forall|i: int|
                    0 <= i < self.tasks@.len() implies ((#[trigger] self.tasks@[i]).done <==> i
                    >= self.first_done_index) by {
                    if i < f {
                        assert(self.tasks@[i] == old(self).tasks@[i]);
                    } else if i > f {
                        assert(self.tasks@[i] == old(self).tasks@[i - 1]);
                    }
                }
            }
        } else {
            self.tasks.push(task);
        }
    }

    /// Parses a line and adds it as a task; blank input is ignored.
    pub fn push_line(&mut self, value: &str)
        requires
            old(self).wf(),
        ensures
            final(self).wf(),
            final(self).grouping == old(self).grouping,
            trim(value@).len() == 0 ==> *final(self) == *old(self),
            trim(value@).len() > 0 && (!old(self).grouping || new_model(value@).1) ==> texts_of(
                final(self).tasks@,
            ) == texts_of(old(self).tasks@).push(new_model(value@)) && final(self).first_done_index == old(self).first_done_index,
            trim(value@).len() > 0 && old(self).grouping && !new_model(value@).1 ==> texts_of(
                final(self).tasks@,
            ) == texts_of(old(self).tasks@).insert(
                old(self).first_done_index as int,
                new_model(value@),
            ) && final(self).first_done_index == old(self).first_done_index + 1,
    {
        let chars = crate::text::str_to_chars(value);
        let tr = crate::text::trim_vec(&chars);
        if tr.len() == 0 {
            return ;
        }
        let t = Task::new(value);
        let ghost tv = texts_of(self.tasks@);
        let ghost fdi0 = self.first_done_index;
        let ghost grp = self.grouping;
        let ghost td = t.done;
        self.push_task(t);
        proof {
            if !grp || td {
                assert(texts_of(self.tasks@) =~= tv.push(new_model(value@)));
            } else {
                assert(texts_of(self.tasks@) =~= tv.insert(fdi0 as int, new_model(value@)));
            }
        }
    }

    /// Removes the task at `index`, keeping the boundary consistent.
    pub fn delete_at(&mut self, index: usize)
        requires
            old(self).wf(),
            index < old(self).tasks@.len(),
        ensures
            final(self).wf(),
            final(self).grouping == old(self).grouping,
            final(self).tasks@ == old(self).tasks@.remove(index as int),
            old(self).grouping && index < old(self).first_done_index ==> final(self).first_done_index == old(self).first_done_index - 1,
            old(self).grouping && index >= old(self).first_done_index ==> final(self).first_done_index == old(self).first_done_index,
            !old(self).grouping ==> final(self).first_done_index == old(self).first_done_index,
    {
        let grouped = self.grouping;
        let f = self.first_done_index;
        let _removed = self.tasks.remove(index);
        if grouped && index < f {
            self.first_done_index = f - 1;
        }
        proof {
            if self.grouping {
                assert forall|i: int|
                    0 <= i < self.tasks@.len() implies ((#[trigger] self.tasks@[i]).done <==> i
                    >= self.first_done_index) by {
                    if i < index {
                        assert(self.tasks@[i] == old(self).tasks@[i]);
                    } else {
                        assert(self.tasks@[i] == old(self).tasks@[i + 1]);
                    }
                }
            }
        }
    }

    /// Toggles the task at `index` between pending and done for the
    /// given completion date, then moves it next to the boundary so the
    /// partition survives. Returns the spawned recurring task's text,
    /// when one is owed; the caller inserts it separately.
    pub fn toggle_at(&mut self, index: usize, completion: &Date) -> (r: Option<String>)
        requires
            old(self).wf(),
            completion.wf(),
            index < old(self).tasks@.len(),
        ensures
            final(self).wf(),
            final(self).grouping == old(self).grouping,
            final(self).tasks@.len() == old(self).tasks@.len(),
            ({
                let t0 = old(self).tasks@[index as int];
                let f0 = old(self).first_done_index as int;
                if t0.done {
                    &&& r is None
                    &&& if old(self).grouping {
                        let dst = f0;
                        &&& final(self).first_done_index == f0 + 1
                        &&& final(self).tasks@[dst].text@ == spec_pending_text(t0.text@)
                        &&& !final(self).tasks@[dst].done
                        &&& forall|j: int|
                            0 <= j < dst ==> #[trigger] final(self).tasks@[j] == old(self).tasks@[j]
                        &&& forall|j: int|
                            dst < j <= index ==> #[trigger] final(self).tasks@[j] == old(self).tasks@[j - 1]
                        &&& forall|j: int|
                            index < j < old(self).tasks@.len() ==> #[trigger] final(self).tasks@[j] == old(self).tasks@[j]
                    } else {
                        &&& final(self).first_done_index == old(self).first_done_index
                        &&& final(self).tasks@[index as int].text@ == spec_pending_text(t0.text@)
                        &&& !final(self).tasks@[index as int].done
                        &&& forall|j: int|
                            0 <= j < old(self).tasks@.len() && j != index
                                ==> #[trigger] final(self).tasks@[j] == old(self).tasks@[j]
                    }
                } else {
                    &&& (match spec_spawn_result(t0.text@, *completion) {
                        Some(s) => r is Some && r->Some_0@ == s,
                        None => r is None,
                    })
                    &&& if old(self).grouping {
                        let dst = f0 - 1;
                        &&& final(self).first_done_index == f0 - 1
                        &&& final(self).tasks@[dst].text@ == spec_done_text(
                            t0.text@,
                            *completion,
                        )
                        &&& final(self).tasks@[dst].done
                        &&& forall|j: int|
                            0 <= j < index ==> #[trigger] final(self).tasks@[j] == old(self).tasks@[j]
                        &&& forall|j: int|
                            index <= j < dst ==> #[trigger] final(self).tasks@[j] == old(self).tasks@[j + 1]
                        &&& forall|j: int|
                            dst < j < old(self).tasks@.len() ==> #[trigger] final(self).tasks@[j] == old(self).tasks@[j]
                    } else {
                        &&& final(self).first_done_index == old(self).first_done_index
                        &&& final(self).tasks@[index as int].text@ == spec_done_text(
                            t0.text@,
                            *completion,
                        )
                        &&& final(self).tasks@[index as int].done
                        &&& forall|j: int|
                            0 <= j < old(self).tasks@.len() && j != index
                                ==> #[trigger] final(self).tasks@[j] == old(self).tasks@[j]
                    }
                }
            }),
    {
        let mut t = self.tasks.remove(index);
        let was_done = t.done;
        let r = t.toggle_done_on(completion);
        if !self.grouping {
            self.tasks.insert(index, t);
            return r;
        }
        if was_done {
            // it reopens: move it to the end of the pending region
            let f = self.first_done_index;
            self.tasks.insert(f, t);
            proof {
                assert(self.tasks.len() == self.tasks@.len());
            }
            self.first_done_index = f + 1;
            proof {
                assert forall|i: int|
                    0 <= i < self.tasks@.len() implies ((#[trigger] self.tasks@[i]).done <==> i
                    >= self.first_done_index) by {
                    if i < f {
                        assert(self.tasks@[i] == old(self).tasks@[i]);
                    } else if i > f {
                        let prev = self.tasks@[i];
                        if i <= index {
                            assert(prev == old(self).tasks@[i - 1]);
                        } else {
                            assert(prev == old(self).tasks@[i]);
                        }
                    }
                }
            }
        } else {
            // it completes: move it to the front of the done region
            let f = self.first_done_index;
            self.tasks.insert(f - 1, t);
            self.first_done_index = f - 1;
            proof {
                assert forall|i: int|
                    0 <= i < self.tasks@.len() implies ((#[trigger] self.tasks@[i]).done <==> i
                    >= self.first_done_index) by {
                    if i < f - 1 {
                        if i < index {
                            assert(self.tasks@[i] == old(self).tasks@[i]);
                        } else {
                            assert(self.tasks@[i] == old(self).tasks@[i + 1]);
                        }
                    } else if i > f - 1 {
                        assert(self.tasks@[i] == old(self).tasks@[i]);
                    }
                }
            }
        }
        r
    }

    /// Replaces the task at `index`, moving it across the boundary when
    /// its done state differs from the old task's.
    pub fn replace_at(&mut self, index: usize, task: Task)
        requires
            old(self).wf(),
            task.wf(),
            index < old(self).tasks@.len(),
        ensures
            final(self).wf(),
            final(self).grouping == old(self).grouping,
            final(self).tasks@.len() == old(self).tasks@.len(),
            ({
                let t0 = old(self).tasks@[index as int];
                let f0 = old(self).first_done_index as int;
                if !old(self).grouping || task.done == t0.done {
                    final(self).tasks@ == old(self).tasks@.update(index as int, task) && final(self).first_done_index == old(self).first_done_index
                } else if task.done {
                    final(self).tasks@ == old(self).tasks@.remove(index as int).insert(
                        f0 - 1,
                        task,
                    ) && final(self).first_done_index == f0 - 1
                } else {
                    final(self).tasks@ == old(self).tasks@.remove(index as int).insert(f0, task)
                        && final(self).first_done_index == f0 + 1
                }
            }),
    {
        let was_done = self.tasks[index].done;
        if !self.grouping || task.done == was_done {
            self.tasks[index] = task;
            proof {
                if self.grouping {
                    assert forall|i: int|
                        0 <= i < self.tasks@.len() implies ((#[trigger] self.tasks@[i]).done
                        <==> i >= self.first_done_index) by {
                        if i != index {
                            assert(self.tasks@[i] == old(self).tasks@[i]);
                        }
                    }
                }
            }
            return ;
        }
        let _old_task = self.tasks.remove(index);
        if task.done {
            let f = self.first_done_index;
            self.tasks.insert(f - 1, task);
            self.first_done_index = f - 1;
            proof {
                assert forall|i: int|
                    0 <= i < self.tasks@.len() implies ((#[trigger] self.tasks@[i]).done <==> i
                    >= self.first_done_index) by {
                    if i < f - 1 {
                        if i < index {
                            assert(self.tasks@[i] == old(self).tasks@[i]);
                        } else {
                            assert(self.tasks@[i] == old(self).tasks@[i + 1]);
                        }
                    } else if i > f - 1 {
                        assert(self.tasks@[i] == old(self).tasks@[i]);
                    }
                }
            }
        } else {
            let f = self.first_done_index;
            self.tasks.insert(f, task);
            proof {
                assert(self.tasks.len() == self.tasks@.len());
            }
            self.first_done_index = f + 1;
            proof {
                assert forall|i: int|
                    0 <= i < self.tasks@.len() implies ((#[trigger] self.tasks@[i]).done <==> i
                    >= self.first_done_index) by {
                    if i < f {
                        assert(self.tasks@[i] == old(self).tasks@[i]);
                    } else if i > f {
                        if i <= index {
                            assert(self.tasks@[i] == old(self).tasks@[i - 1]);
                        } else {
                            assert(self.tasks@[i] == old(self).tasks@[i]);
                        }
                    }
                }
            }
        }
    }

    /// The first task whose text equals `text`.
    pub fn find_by_text(&self, text: &String) -> (r: Option<usize>)
        ensures
            match r {
                Some(i) => i < self.tasks@.len() && self.tasks@[i as int].text@ == text@
                    && forall|j: int| 0 <= j < i ==> (#[trigger] self.tasks@[j]).text@ != text@,
                None => forall|j: int|
                    0 <= j < self.tasks@.len() ==> (#[trigger] self.tasks@[j]).text@ != text@,
            },
    {
        let mut i: usize = 0;
        while i < self.tasks.len()
            invariant
                i <= self.tasks@.len(),
                forall|j: int| 0 <= j < i ==> (#[trigger] self.tasks@[j]).text@ != text@,
            decreases self.tasks@.len() - i,
        {
            if self.tasks[i].text.eq(text) {
                return Some(i);
            }
            i += 1;
        }
        None
    }

    /// The totals a report shows: all tasks, completed, still to do.
    pub fn report_counts(&self) -> (r: (usize, usize, usize))
        ensures
            r.0 == self.tasks@.len(),
            r.1 == count_done(self.tasks@),
            r.2 == r.0 - r.1,
            count_done(self.tasks@) <= self.tasks@.len(),
    {
        proof {
            lemma_count_done_le(self.tasks@);
        }
        let mut completed: usize = 0;
        let mut i: usize = 0;
        proof {
            assert(self.tasks@.take(0) =~= Seq::<Task>::empty());
        }
        while i < self.tasks.len()
            invariant
                i <= self.tasks@.len(),
                completed == count_done(self.tasks@.take(i as int)),
                completed <= i,
            decreases self.tasks@.len() - i,
        {
            proof {
                assert(self.tasks@.take(i + 1).drop_last() =~= self.tasks@.take(i as int));
                assert(self.tasks@.take(i + 1).last() == self.tasks@[i as int]);
            }
            if self.tasks[i].done {
                completed += 1;
            }
            i += 1;
        }
        proof {
            assert(self.tasks@.take(i as int) =~= self.tasks@);
        }
        let total = self.tasks.len();
        (total, completed, total - completed)
    }
}

/// The number of completed tasks.
pub open spec fn count_done(tasks: Seq<Task>) -> int
    decreases tasks.len(),
{
    if tasks.len() == 0 {
        0
    } else {
        count_done(tasks.drop_last()) + if tasks.last().done {
            1int
        } else {
            0int
        }
    }
}

pub proof fn lemma_count_done_le(tasks: Seq<Task>)
    ensures
        0 <= count_done(tasks) <= tasks.len(),
    decreases tasks.len(),
{
    if tasks.len() > 0 {
        lemma_count_done_le(tasks.drop_last());
    }
}

/// Law: whenever grouping is enabled and the list is well formed, every
/// task before `first_done_index` is pending and every task from it on
/// is done — the partition the mutating operations maintain.
pub proof fn lemma_partition(l: TaskList)
    requires
        l.wf(),
        l.grouping,
    ensures
        l.first_done_index <= l.tasks@.len(),
        forall|i: int| 0 <= i < l.first_done_index ==> !(#[trigger] l.tasks@[i]).done,
        forall|i: int|
            l.first_done_index <= i < l.tasks@.len() ==> (#[trigger] l.tasks@[i]).done,
{
}

} // verus!
