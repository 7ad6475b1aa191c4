//! The search filter: a comma-separated expression of positive and
//! negative substring clauses, evaluated against a task's full text.
//! Filtering derives a read-only view; it never mutates the list.
use vstd::prelude::*;

use crate::list::TaskList;
use crate::tasks::Task;
use crate::text::{contains_sub, has_substring, str_to_chars, subvec, trim, trim_vec};

verus! {

/// Length of the run of characters before the first comma.
pub open spec fn nc_prefix_len(s: Seq<char>) -> nat
    decreases s.len(),
{
    if s.len() == 0 || s[0] == ',' {
        0
    } else {
        (1 + nc_prefix_len(s.skip(1))) as nat
    }
}

pub proof fn lemma_nc_prefix_le(s: Seq<char>)
    ensures
        nc_prefix_len(s) <= s.len(),
    decreases s.len(),
{
    if s.len() == 0 || s[0] == ',' {
    } else {
        lemma_nc_prefix_le(s.skip(1));
    }
}

pub proof fn lemma_nc_prefix_is(s: Seq<char>, i: int)
    requires
        0 <= i <= s.len(),
        forall|j: int| 0 <= j < i ==> s[j] != ',',
        i < s.len() ==> s[i] == ',',
    ensures
        nc_prefix_len(s) == i,
    decreases s.len(),
{
    if i == 0 {
    } else {
        assert(s[0] != ',');
        assert forall|j: int| 0 <= j < i - 1 implies s.skip(1)[j] != ',' by {
            assert(s.skip(1)[j] == s[j + 1]);
        }
        if i - 1 < s.skip(1).len() {
            assert(s.skip(1)[i - 1] == s[i]);
        }
        lemma_nc_prefix_is(s.skip(1), i - 1);
    }
}

/// The clauses of an expression: the pieces between commas, separators
/// dropped, empty pieces kept. The empty expression has one empty clause.
pub open spec fn split_commas(s: Seq<char>) -> Seq<Seq<char>>
    decreases s.len(),
    via split_commas_decreases
{
    let k = nc_prefix_len(s) as int;
    if k == s.len() {
        seq![s]
    } else {
        seq![s.take(k)] + split_commas(s.skip(k + 1))
    }
}

#[via_fn]
proof fn split_commas_decreases(s: Seq<char>) {
    lemma_nc_prefix_le(s);
}

/// One clause against a task's text: a leading `-` demands the rest be
/// absent; otherwise the clause, trimmed, must occur.
pub open spec fn clause_matches(t: Seq<char>, clause: Seq<char>) -> bool {
    if clause.len() > 0 && clause[0] == '-' {
        !has_substring(t, clause.skip(1))
    } else {
        has_substring(t, trim(clause))
    }
}

/// A task passes an expression when every clause passes.
pub open spec fn matches_expr(t: Seq<char>, expr: Seq<char>) -> bool {
    forall|k: int|
        0 <= k < split_commas(expr).len() ==> clause_matches(t, #[trigger] split_commas(expr)[k])
}

/// Law: the empty expression matches every text, so filtering by it
/// yields the unfiltered list.
pub proof fn lemma_empty_expr_matches_all(t: Seq<char>)
    ensures
        matches_expr(t, Seq::<char>::empty()),
{
    let e = Seq::<char>::empty();
    assert(nc_prefix_len(e) == 0);
    assert(split_commas(e) =~= seq![e]);
    assert forall|k: int|
        0 <= k < split_commas(e).len() implies clause_matches(t, #[trigger] split_commas(e)[k]) by {
        assert(split_commas(e)[k] == e);
        assert(trim(e) =~= e);
        assert(t.subrange(0, 0 + e.len() as int) =~= e);
        assert(has_substring(t, e));
    }
}

/// Executable clause split.
fn split_commas_vec(v: &Vec<char>) -> (r: Vec<Vec<char>>)
    ensures
        r.deep_view() == split_commas(v@),
        r@.len() == split_commas(v@).len(),
        forall|j: int| 0 <= j < r@.len() ==> #[trigger] r@[j]@ == split_commas(v@)[j],
{
    let mut r: Vec<Vec<char>> = Vec::new();
    let mut i: usize = 0;
    let mut finished = false;
    proof {
        assert(v@.skip(0) =~= v@);
        assert(r.deep_view() =~~= Seq::<Seq<char>>::empty());
        assert(r.deep_view() + split_commas(v@) =~~= split_commas(v@));
    }
    while !finished
        invariant
            i <= v@.len(),
            !finished ==> r.deep_view() + split_commas(v@.skip(i as int)) == split_commas(v@),
            finished ==> r.deep_view() == split_commas(v@),
        decreases v@.len() - i + (if finished { 0int } else { 1int }),
    {
        let ghost s = v@.skip(i as int);
        let mut j = i;
        while j < v.len() && v[j] != ','
            invariant
                i <= j <= v@.len(),
                forall|q: int| i <= q < j ==> v@[q] != ',',
            decreases v@.len() - j,
        {
            j += 1;
        }
        proof {
            assert forall|q: int| 0 <= q < j - i implies s[q] != ',' by {
                assert(s[q] == v@[i + q]);
            }
            if j < v@.len() {
                assert(s[j - i] == v@[j as int]);
            }
            lemma_nc_prefix_is(s, j - i);
        }
        let piece = subvec(v, i, j);
        proof {
            assert(piece@ =~= s.take(j - i));
        }
        let ghost rdv = r.deep_view();
        r.push(piece);
        proof {
            assert(r.deep_view() =~~= rdv.push(piece@));
        }
        if j < v.len() {
            proof {
                assert(s.skip(j - i + 1) =~= v@.skip(j + 1));
                assert(split_commas(s) == seq![s.take(j - i)] + split_commas(v@.skip(j + 1)));
                assert(r.deep_view() + split_commas(v@.skip(j + 1)) =~~= split_commas(v@));
            }
            i = j + 1;
        } else {
            proof {
                assert(s.take(j - i) =~= s);
                assert(split_commas(s) == seq![s]);
                assert(r.deep_view() =~~= split_commas(v@));
            }
            finished = true;
        }
    }
    proof {
        assert forall|j: int| 0 <= j < r@.len() implies #[trigger] r@[j]@ == split_commas(
            v@,
        )[j] by {
            assert(r@[j]@ =~= r.deep_view()[j]);
        }
    }
    r
}

/// Whether one clause passes against a text.
fn clause_matches_x(t: &Vec<char>, clause: &Vec<char>) -> (r: bool)
    ensures
        r == clause_matches(t@, clause@),
{
    if clause.len() > 0 && clause[0] == '-' {
        let pat = subvec(clause, 1, clause.len());
        proof {
            assert(pat@ =~= clause@.skip(1));
        }
        !contains_sub(t, &pat)
    } else {
        let pat = trim_vec(clause);
        contains_sub(t, &pat)
    }
}

/// Whether a text passes every clause of an expression.
pub fn matches_expr_x(t: &Vec<char>, expr: &Vec<char>) -> (r: bool)
    ensures
        r == matches_expr(t@, expr@),
{
    let clauses = split_commas_vec(expr);
    let mut i: usize = 0;
    while i < clauses.len()
        invariant
            i <= clauses@.len(),
            clauses@.len() == split_commas(expr@).len(),
            forall|j: int| 0 <= j < clauses@.len() ==> #[trigger] clauses@[j]@ == split_commas(
                expr@,
            )[j],
            forall|k: int|
                0 <= k < i ==> clause_matches(t@, #[trigger] split_commas(expr@)[k]),
        decreases clauses@.len() - i,
    {
        if !clause_matches_x(t, &clauses[i]) {
            assert(!clause_matches(t@, split_commas(expr@)[i as int]));
            return false;
        }
        i += 1;
    }
    true
}

/// The tasks of the list that pass the expression, in order.
pub open spec fn filtered_tasks(tasks: Seq<Task>, expr: Seq<char>) -> Seq<Task>
    decreases tasks.len(),
{
    if tasks.len() == 0 {
        Seq::empty()
    } else {
        let m = filtered_tasks(tasks.drop_last(), expr);
        if matches_expr(tasks.last().text@, expr) {
            m.push(tasks.last())
        } else {
            m
        }
    }
}

impl TaskList {
    /// The derived, read-only filtered view of the list: copies of the
    /// tasks whose full text passes the expression, in list order.
    pub fn filter_tasks(&self, expr: &str) -> (r: Vec<Task>)
        requires
            self.wf(),
        ensures
            r@.len() == filtered_tasks(self.tasks@, expr@).len(),
            forall|i: int|
                0 <= i < r@.len() ==> (#[trigger] r@[i]).text@ == filtered_tasks(
                    self.tasks@,
                    expr@,
                )[i].text@ && r@[i].done == filtered_tasks(self.tasks@, expr@)[i].done
                    && r@[i].wf(),
    {
        let ev = str_to_chars(expr);
        let mut r: Vec<Task> = Vec::new();
        let mut i: usize = 0;
        proof {
            assert(self.tasks@.take(0) =~= Seq::<Task>::empty());
        }
        while i < self.tasks.len()
            invariant
                self.wf(),
                i <= self.tasks@.len(),
                ev@ == expr@,
                ({
                    let f = filtered_tasks(self.tasks@.take(i as int), expr@);
                    r@.len() == f.len() && forall|q: int|
                        0 <= q < r@.len() ==> (#[trigger] r@[q]).text@ == f[q].text@
                            && r@[q].done == f[q].done && r@[q].wf()
                }),
            decreases self.tasks@.len() - i,
        {
            proof {
                assert(self.tasks@.take(i + 1).drop_last() =~= self.tasks@.take(i as int));
                assert(self.tasks@.take(i + 1).last() == self.tasks@[i as int]);
            }
            let t = &self.tasks[i];
            let tc = str_to_chars(t.text.as_str());
            if matches_expr_x(&tc, &ev) {
                let copy = t.clone();
                r.push(copy);
            }
            i += 1;
        }
        proof {
            assert(self.tasks@.take(i as int) =~= self.tasks@);
        }
        r
    }
}

/// Law: filtering by the empty expression keeps every task.
pub proof fn lemma_empty_filter_is_identity(tasks: Seq<Task>)
    ensures
        filtered_tasks(tasks, Seq::<char>::empty()) == tasks,
    decreases tasks.len(),
{
    if tasks.len() == 0 {
        assert(filtered_tasks(tasks, Seq::<char>::empty()) =~= tasks);
    } else {
        lemma_empty_expr_matches_all(tasks.last().text@);
        lemma_empty_filter_is_identity(tasks.drop_last());
        assert(filtered_tasks(tasks, Seq::<char>::empty()) =~= tasks.drop_last().push(
            tasks.last(),
        ));
        assert(tasks.drop_last().push(tasks.last()) =~= tasks);
    }
}

} // verus!
