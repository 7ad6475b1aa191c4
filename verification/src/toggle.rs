//! The pending/done toggle: moving a task between the two states while
//! relocating its priority, dates and recurrence metadata.
use vstd::prelude::*;

use crate::date::{fmt_date, fmt_date_vec, today, Date};
use crate::fields::{extract_date, extract_priority, spec_get_date, spec_get_priority};
use crate::recur::{compute_spawn, pri_key, spec_spawn_result};
use crate::tasks::{
    done_marker, has_priority, is_upper, parse_task_vec, pending_marker, Task,
};
use crate::text::{
    chars_to_string, is_ws, push_all, str_to_chars, subvec, trim, trim_end, trim_end_index,
    trim_start, trim_start_vec, trim_vec, ws_char,
};

verus! {

/// The fields a pending line is split into on completion: the priority
/// letter, the start date, and the trimmed remainder.
pub open spec fn done_parts(text: Seq<char>) -> (Option<char>, Seq<char>, Seq<char>) {
    let p = spec_get_priority(text.skip(2));
    let d = spec_get_date(trim_start(p.0));
    (p.1, d.1, trim(d.0))
}

/// The completed line: `x `, the completion date, the retained start
/// date, the remainder, and the priority moved to a trailing `Pri:X`.
pub open spec fn spec_done_text(text: Seq<char>, completion: Date) -> Seq<char> {
    let parts = done_parts(text);
    done_marker() + fmt_date(completion) + seq![' '] + (if parts.1.len() > 0 {
        parts.1 + seq![' ']
    } else {
        Seq::<char>::empty()
    }) + parts.2 + (match parts.0 {
        Some(c) => seq![' '] + pri_key() + seq![c],
        None => Seq::<char>::empty(),
    })
}

/// The remainder ends in a whole `Pri:X` word, `X` an uppercase letter.
pub open spec fn has_trailing_pri(rest: Seq<char>) -> bool {
    let n = rest.len() as int;
    n >= 5 && rest[n - 5] == 'P' && rest[n - 4] == 'r' && rest[n - 3] == 'i' && rest[n - 2] == ':'
        && is_upper(rest[n - 1]) && (n == 5 || is_ws(rest[n - 6]))
}

/// The remainder with its trailing `Pri:X` word removed.
pub open spec fn strip_trailing_pri(rest: Seq<char>) -> Seq<char> {
    trim_end(rest.take(rest.len() - 5))
}

/// The fields a completed line is split into on reopening: the
/// completion date, the start date, and the trimmed remainder.
pub open spec fn pending_parts(text: Seq<char>) -> (Seq<char>, Seq<char>, Seq<char>) {
    let d1 = spec_get_date(trim_start(text.skip(2)));
    let d2 = spec_get_date(trim_start(d1.0));
    (d1.1, d2.1, trim(d2.0))
}

/// The reopened line: the pending marker, the priority restored from a
/// trailing `Pri:X` word, the start date (kept only when both dates were
/// present), and the remainder.
pub open spec fn spec_pending_text(text: Seq<char>) -> Seq<char> {
    let parts = pending_parts(text);
    let rest = parts.2;
    let rest2 = if has_trailing_pri(rest) {
        strip_trailing_pri(rest)
    } else {
        rest
    };
    pending_marker() + (if has_trailing_pri(rest) {
        seq!['(', rest[rest.len() - 1], ')', ' ']
    } else {
        Seq::<char>::empty()
    }) + (if parts.0.len() > 0 && parts.1.len() > 0 {
        parts.1 + seq![' ']
    } else {
        Seq::<char>::empty()
    }) + rest2
}

/// A pending line's normal form: marker, priority, start date, remainder,
/// each separated by one space.
pub open spec fn normalized_pending(text: Seq<char>) -> Seq<char> {
    let parts = done_parts(text);
    pending_marker() + (match parts.0 {
        Some(c) => seq!['(', c, ')', ' '],
        None => Seq::<char>::empty(),
    }) + (if parts.1.len() > 0 {
        parts.1 + seq![' ']
    } else {
        Seq::<char>::empty()
    }) + parts.2
}

/// Law: completing a pending task and reopening it reproduces the
/// original semantic content — priority, start date and remainder all
/// survive one full cycle — up to whitespace normalization. The two
/// hypotheses besides the marker: the remainder is not empty, and does
/// not itself end in a `Pri:X` word (such a word would be read back as a
/// priority).
#[verifier::rlimit(100)]
#[verifier::spinoff_prover]
pub proof fn lemma_toggle_round_trip(text: Seq<char>, completion: Date)
    requires
        crate::text::starts_with(text, pending_marker()),
        completion.wf(),
        done_parts(text).2.len() > 0,
        !has_trailing_pri(done_parts(text).2),
    ensures
        spec_pending_text(spec_done_text(text, completion)) == normalized_pending(text),
{
    let p = spec_get_priority(text.skip(2));
    let tp = trim_start(text.skip(2));
    let y = trim_start(p.0);
    let x = spec_get_date(y);
    let pri = p.1;
    let s = x.1;
    let r = trim(x.0);
    assert(done_parts(text) == (pri, s, r));
    crate::text::lemma_trim_ends(x.0);
    assert(r.len() > 0 && !is_ws(r[0]) && !is_ws(r.last()));
    let f = fmt_date(completion);
    crate::date::lemma_fmt_date_is_date10(completion);
    assert(f.len() == 10);
    let sp = if s.len() > 0 {
        s + seq![' ']
    } else {
        Seq::<char>::empty()
    };
    let pp = match pri {
        Some(c) => seq![' '] + pri_key() + seq![c],
        None => Seq::<char>::empty(),
    };
    let d = spec_done_text(text, completion);
    assert(d == done_marker() + f + seq![' '] + sp + r + pp);
    if pri is Some {
        assert(has_priority(tp));
        assert(is_upper(tp[1]));
        assert(pp.len() == 6);
        assert(pp[0] == ' ' && pp[1] == 'P' && pp[2] == 'r' && pp[3] == 'i' && pp[4] == ':'
            && pp[5] == pri->Some_0);
        assert(is_upper(pp[5]));
    }
    if s.len() > 0 {
        assert(crate::date::is_date10(s));
        assert(crate::date::is_digit(s[0]));
    }
    // the body of the done line
    let after = d.skip(2);
    assert(after =~= f + seq![' '] + sp + r + pp);
    // the completion date is extracted first
    assert(crate::date::is_digit(f[0]));
    assert(after[0] == f[0]);
    crate::text::lemma_ws_prefix_is(after, 0);
    assert(trim_start(after) =~= after);
    assert(after.take(10) =~= f);
    let d1 = spec_get_date(after);
    assert(d1.1 == f && d1.0 == after.skip(10));
    let tail1 = after.skip(10);
    assert(tail1 =~= seq![' '] + sp + r + pp);
    // then the start date
    assert(is_ws(tail1[0]));
    if s.len() > 0 {
        assert(tail1[1] == s[0]);
        assert(!is_ws(tail1[1]));
        crate::text::lemma_ws_prefix_is(tail1, 1);
        let t2 = tail1.skip(1);
        assert(trim_start(tail1) == t2);
        assert(t2 =~= s + seq![' '] + r + pp);
        assert(t2.take(10) =~= s);
        let d2 = spec_get_date(t2);
        assert(d2.1 == s && d2.0 == t2.skip(10));
        let x2 = t2.skip(10);
        assert(x2 =~= seq![' '] + r + pp);
        // the remainder, trimmed back
        assert(is_ws(x2[0]));
        assert(x2[1] == r[0]);
        crate::text::lemma_ws_prefix_is(x2, 1);
        let rest3 = x2.skip(1);
        assert(trim_start(x2) == rest3);
        assert(rest3 =~= r + pp);
        if pri is Some {
            assert(!is_ws(rest3.last()));
        } else {
            assert(rest3 =~= r);
            assert(!is_ws(rest3.last()));
        }
        crate::text::lemma_ws_suffix_is(rest3, 0);
        assert(trim(x2) =~= rest3);
        assert(pending_parts(d) == (f, s, rest3));
        lemma_round_trip_tail(r, pp, pri);
        let rest2 = if has_trailing_pri(rest3) {
            strip_trailing_pri(rest3)
        } else {
            rest3
        };
        assert(spec_pending_text(d) == pending_marker() + (if has_trailing_pri(rest3) {
            seq!['(', rest3[rest3.len() - 1], ')', ' ']
        } else {
            Seq::<char>::empty()
        }) + (s + seq![' ']) + rest2);
        assert(spec_pending_text(d) =~= normalized_pending(text));
    } else {
        assert(sp =~= Seq::<char>::empty());
        assert(tail1 =~= seq![' '] + r + pp);
        assert(tail1[1] == r[0]);
        assert(!is_ws(tail1[1]));
        crate::text::lemma_ws_prefix_is(tail1, 1);
        let rest3 = tail1.skip(1);
        assert(trim_start(tail1) == rest3);
        assert(rest3 =~= r + pp);
        // no second date is found in the remainder
        lemma_no_date_in_rest(text, r, pp);
        let d2 = spec_get_date(rest3);
        assert(d2.1 == Seq::<char>::empty() && d2.0 == rest3);
        if pri is Some {
            assert(!is_ws(rest3.last()));
        } else {
            assert(rest3 =~= r);
            assert(!is_ws(rest3.last()));
        }
        crate::text::lemma_ws_prefix_is(rest3, 0);
        crate::text::lemma_ws_suffix_is(rest3, 0);
        assert(trim(rest3) =~= rest3);
        assert(pending_parts(d) == (f, Seq::<char>::empty(), rest3));
        lemma_round_trip_tail(r, pp, pri);
        assert(spec_pending_text(d) =~= normalized_pending(text));
    }
}

/// After one completion, the remainder plus the appended `Pri:X` word
/// reads back as exactly that priority and the original remainder.
proof fn lemma_round_trip_tail(r: Seq<char>, pp: Seq<char>, pri: Option<char>)
    requires
        r.len() > 0,
        !is_ws(r[0]),
        !is_ws(r.last()),
        !has_trailing_pri(r),
        pp == (match pri {
            Some(c) => seq![' '] + crate::recur::pri_key() + seq![c],
            None => Seq::<char>::empty(),
        }),
        pri is Some ==> is_upper(pri->Some_0),
    ensures
        pri is Some ==> has_trailing_pri(r + pp) && (r + pp)[(r + pp).len() - 1] == pri->Some_0
            && strip_trailing_pri(r + pp) == r,
        pri is None ==> !has_trailing_pri(r + pp) && r + pp == r,
{
    if pri is Some {
        let rest3 = r + pp;
        let n = rest3.len() as int;
        assert(n == r.len() + 6);
        assert(rest3[n - 6] == ' ');
        assert(rest3[n - 5] == 'P');
        assert(rest3[n - 4] == 'r');
        assert(rest3[n - 3] == 'i');
        assert(rest3[n - 2] == ':');
        assert(rest3[n - 1] == pri->Some_0);
        assert(has_trailing_pri(rest3));
        let cut = rest3.take(n - 5);
        assert(cut =~= r + seq![' ']);
        assert(is_ws(cut[cut.len() - 1]));
        assert(cut[cut.len() - 2] == r.last());
        crate::text::lemma_ws_suffix_is(cut, 1);
        assert(strip_trailing_pri(rest3) =~= r);
    } else {
        assert(r + pp =~= r);
    }
}

/// When the pending line had no start date, the reopened line finds no
/// date at the head of its remainder either.
proof fn lemma_no_date_in_rest(text: Seq<char>, r: Seq<char>, pp: Seq<char>)
    requires
        done_parts(text).1.len() == 0,
        done_parts(text).2 == r,
        r.len() > 0,
        pp.len() == 0 || (pp.len() == 6 && pp[0] == ' '),
    ensures
        !((r + pp).len() >= 10 && crate::date::is_date10((r + pp).take(10))),
{
    let p = spec_get_priority(text.skip(2));
    let y = trim_start(p.0);
    let x = spec_get_date(y);
    assert(x.0 == y);
    assert(r == trim(y));
    crate::text::lemma_ws_prefix(p.0);
    if y.len() > 0 {
        crate::text::lemma_ws_prefix_is(y, 0);
    }
    assert(trim_start(y) == y);
    assert(r == trim_end(y));
    crate::text::lemma_ws_suffix(y);
    assert(r =~= y.take(y.len() - crate::text::ws_suffix_len(y)));
    assert(forall|j: int| 0 <= j < r.len() ==> r[j] == y[j]);
    let rp = r + pp;
    if rp.len() >= 10 {
        if r.len() >= 10 {
            assert(y.len() >= 10);
            assert(!crate::date::is_date10(y.take(10)));
            assert(rp.take(10) =~= y.take(10));
        } else {
            // the space of the appended priority word falls inside the
            // first ten characters, where a date has digits and dashes
            assert(pp.len() == 6);
            let q = r.len() as int;
            assert(4 <= q <= 9);
            assert(rp.take(10)[q] == ' ');
            if crate::date::is_date10(rp.take(10)) {
                if q == 4 || q == 7 {
                    assert(rp.take(10)[q] == '-');
                } else {
                    assert(crate::date::is_digit(rp.take(10)[q]));
                }
            }
        }
    }
}

impl Task {
    /// Toggles the task for a given completion date. Returns the spawned
    /// recurring task's text, when one is owed.
    pub fn toggle_done_on(&mut self, completion: &Date) -> (r: Option<String>)
        requires
            old(self).wf(),
            completion.wf(),
        ensures
            final(self).wf(),
            old(self).done ==> final(self).text@ == spec_pending_text(old(self).text@)
                && !final(self).done && r is None,
            !old(self).done ==> final(self).text@ == spec_done_text(
                old(self).text@,
                *completion,
            ) && final(self).done && (match spec_spawn_result(old(self).text@, *completion) {
                Some(s) => r is Some && r->Some_0@ == s,
                None => r is None,
            }),
    {
        let ghost t0 = self.text@;
        let chars = str_to_chars(self.text.as_str());
        let body = subvec(&chars, 2, chars.len());
        proof {
            assert(body@ =~= t0.skip(2));
        }
        if self.done {
            let bt = trim_start_vec(&body);
            let (r1, _completion_date) = extract_date(&bt);
            let r1t = trim_start_vec(&r1);
            let (r2, start) = extract_date(&r1t);
            let rest = trim_vec(&r2);
            let n = rest.len();
            let tp = n >= 5 && rest[n - 5] == 'P' && rest[n - 4] == 'r' && rest[n - 3] == 'i'
                && rest[n - 2] == ':' && 'A' <= rest[n - 1] && rest[n - 1] <= 'Z' && (n == 5
                || ws_char(rest[n - 6]));
            proof {
                assert(tp == has_trailing_pri(rest@));
            }
            let mut out: Vec<char> = Vec::new();
            out.push('\u{2610}');
            out.push(' ');
            if tp {
                out.push('(');
                out.push(rest[n - 1]);
                out.push(')');
                out.push(' ');
            }
            if _completion_date.len() > 0 && start.len() > 0 {
                push_all(&mut out, &start);
                out.push(' ');
            }
            if tp {
                let cut = subvec(&rest, 0, n - 5);
                let e = trim_end_index(&cut);
                let r2v = subvec(&cut, 0, e);
                proof {
                    assert(r2v@ =~= strip_trailing_pri(rest@));
                }
                push_all(&mut out, &r2v);
            } else {
                push_all(&mut out, &rest);
            }
            proof {
                assert(out@ =~= spec_pending_text(t0));
                assert(out@.take(2) =~= pending_marker());
                assert(pending_marker()[0] == '\u{2610}');
                if crate::text::starts_with(out@, done_marker()) {
                    assert(out@.take(2)[0] == 'x');
                }
            }
            self.text = chars_to_string(&out);
            self.arr = parse_task_vec(&out);
            self.done = false;
            None
        } else {
            let (r1, pri) = extract_priority(&body);
            let r1t = trim_start_vec(&r1);
            let (r2, start) = extract_date(&r1t);
            let rest = trim_vec(&r2);
            let mut out: Vec<char> = Vec::new();
            out.push('x');
            out.push(' ');
            let f = fmt_date_vec(completion);
            push_all(&mut out, &f);
            out.push(' ');
            if start.len() > 0 {
                push_all(&mut out, &start);
                out.push(' ');
            }
            push_all(&mut out, &rest);
            match pri {
                Some(c) => {
                    out.push(' ');
                    out.push('P');
                    out.push('r');
                    out.push('i');
                    out.push(':');
                    out.push(c);
                },
                None => {},
            }
            proof {
                assert(out@ =~= spec_done_text(t0, *completion));
                assert(out@.take(2) =~= done_marker());
            }
            let sp = compute_spawn(&chars, completion);
            let r = match sp {
                Some(vv) => Some(chars_to_string(&vv)),
                None => None,
            };
            self.text = chars_to_string(&out);
            self.arr = parse_task_vec(&out);
            self.done = true;
            r
        }
    }

    /// Toggles the task between pending and done, completing against the
    /// current local date. Returns the spawned recurring task's text,
    /// when one is owed.
    pub fn toggle_done(&mut self) -> (r: Option<String>)
        requires
            old(self).wf(),
        ensures
            final(self).wf(),
            old(self).done ==> final(self).text@ == spec_pending_text(old(self).text@)
                && !final(self).done && r is None,
            !old(self).done ==> exists|t: Date|
                {
                    &&& #[trigger] t.wf()
                    &&& final(self).text@ == spec_done_text(old(self).text@, t)
                    &&& final(self).done
                    &&& match spec_spawn_result(old(self).text@, t) {
                        Some(s) => r is Some && r->Some_0@ == s,
                        None => r is None,
                    }
                },
    {
        let ghost orig = *self;
        let td = today();
        let r = self.toggle_done_on(&td);
        proof {
            if !orig.done {
                assert({
                    &&& td.wf()
                    &&& self.text@ == spec_done_text(orig.text@, td)
                    &&& self.done
                    &&& match spec_spawn_result(orig.text@, td) {
                        Some(s) => r is Some && r->Some_0@ == s,
                        None => r is None,
                    }
                });
            }
        }
        r
    }
}

} // verus!
