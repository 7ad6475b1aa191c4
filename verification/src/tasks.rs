//! The task model: a raw line, its done flag, and an ordered list of
//! tagged segments whose concatenation reproduces the line exactly.
use vstd::prelude::*;

use crate::text::{
    chars_to_string, chunks, concat_seqs, lemma_chunks_concat, lemma_ws_prefix_is, run_len,
    starts_with, str_to_chars, subvec, trim, trim_vec, word_of,
};

verus! {

/// The classification of one segment of a task's text.
#[derive(Clone, Copy, Debug, PartialEq, Eq, Structural)]
pub enum TaskStringTag {
    Other,
    Context,
    Priority,
    Project,
    KV,
}

/// One tagged substring of a task's text.
#[derive(Debug)]
pub struct TaskSection(pub TaskStringTag, pub String);

impl View for TaskSection {
    type V = (TaskStringTag, Seq<char>);

    open spec fn view(&self) -> (TaskStringTag, Seq<char>) {
        (self.0, self.1@)
    }
}

impl DeepView for TaskSection {
    type V = (TaskStringTag, Seq<char>);

    open spec fn deep_view(&self) -> (TaskStringTag, Seq<char>) {
        self.view()
    }
}

impl Clone for TaskSection {
    fn clone(&self) -> (r: Self)
        ensures
            r@ == self@,
    {
        TaskSection(self.0, self.1.clone())
    }
}

/// The two-character marker of a pending task.
pub open spec fn pending_marker() -> Seq<char> {
    seq!['\u{2610}', ' ']
}

/// The two-character marker of a completed task.
pub open spec fn done_marker() -> Seq<char> {
    seq!['x', ' ']
}

/// The text begins with one of the two markers.
pub open spec fn has_marker(t: Seq<char>) -> bool {
    starts_with(t, pending_marker()) || starts_with(t, done_marker())
}

pub open spec fn is_upper(c: char) -> bool {
    'A' <= c && c <= 'Z'
}

/// The text (after its marker) begins with a `(X)` priority form.
pub open spec fn has_priority(body: Seq<char>) -> bool {
    body.len() >= 3 && body[0] == '(' && is_upper(body[1]) && body[2] == ')'
}

/// The tag a whitespace-separated word receives.
pub open spec fn classify_word(w: Seq<char>) -> TaskStringTag {
    if w.len() == 0 {
        TaskStringTag::Other
    } else if w[0] == '@' {
        TaskStringTag::Context
    } else if w[0] == '+' {
        TaskStringTag::Project
    } else if w.contains(':') {
        TaskStringTag::KV
    } else {
        TaskStringTag::Other
    }
}

/// Adds one chunk to a segment list, merging consecutive plain chunks
/// into a single `Other` segment.
pub open spec fn seg_step(
    acc: Seq<(TaskStringTag, Seq<char>)>,
    chunk: Seq<char>,
) -> Seq<(TaskStringTag, Seq<char>)> {
    let tag = classify_word(word_of(chunk));
    if tag == TaskStringTag::Other && acc.len() > 0 && acc.last().0 == TaskStringTag::Other {
        acc.update(acc.len() - 1, (TaskStringTag::Other, acc.last().1 + chunk))
    } else {
        acc.push((tag, chunk))
    }
}

/// Folds `seg_step` over a list of chunks, left to right.
pub open spec fn assemble(
    acc: Seq<(TaskStringTag, Seq<char>)>,
    cs: Seq<Seq<char>>,
) -> Seq<(TaskStringTag, Seq<char>)>
    decreases cs.len(),
{
    if cs.len() == 0 {
        acc
    } else {
        assemble(seg_step(acc, cs[0]), cs.skip(1))
    }
}

/// The segment list of a marked task line: the marker, an optional
/// priority segment, then the remaining chunks classified and merged.
pub open spec fn spec_parse_task(t: Seq<char>) -> Seq<(TaskStringTag, Seq<char>)> {
    let body = t.skip(2);
    let acc0 = seq![(TaskStringTag::Other, t.take(2))];
    if has_priority(body) {
        assemble(acc0.push((TaskStringTag::Priority, body.take(3))), chunks(body.skip(3)))
    } else {
        assemble(acc0, chunks(body))
    }
}

/// Concatenation of the strings of a segment list.
pub open spec fn seg_concat(segs: Seq<(TaskStringTag, Seq<char>)>) -> Seq<char>
    decreases segs.len(),
{
    if segs.len() == 0 {
        Seq::<char>::empty()
    } else {
        segs[0].1 + seg_concat(segs.skip(1))
    }
}

pub proof fn lemma_seg_concat_push(segs: Seq<(TaskStringTag, Seq<char>)>, s: (TaskStringTag, Seq<char>))
    ensures
        seg_concat(segs.push(s)) == seg_concat(segs) + s.1,
    decreases segs.len(),
{
    if segs.len() == 0 {
        assert(segs.push(s)[0] == s);
        assert(segs.push(s).skip(1) =~= Seq::<(TaskStringTag, Seq<char>)>::empty());
        assert(seg_concat(Seq::<(TaskStringTag, Seq<char>)>::empty()) == Seq::<char>::empty());
        assert(seg_concat(segs.push(s)) == s.1 + Seq::<char>::empty());
        assert(s.1 + Seq::<char>::empty() =~= Seq::<char>::empty() + s.1);
        assert(seg_concat(segs) == Seq::<char>::empty());
    } else {
        lemma_seg_concat_push(segs.skip(1), s);
        assert(segs.push(s).skip(1) =~= segs.skip(1).push(s));
        assert(segs.push(s)[0] == segs[0]);
        assert(segs[0].1 + (seg_concat(segs.skip(1)) + s.1) =~= (segs[0].1 + seg_concat(
            segs.skip(1),
        )) + s.1);
    }
}

pub proof fn lemma_seg_concat_last(segs: Seq<(TaskStringTag, Seq<char>)>)
    requires
        segs.len() > 0,
    ensures
        seg_concat(segs) == seg_concat(segs.drop_last()) + segs.last().1,
{
    assert(segs =~= segs.drop_last().push(segs.last()));
    lemma_seg_concat_push(segs.drop_last(), segs.last());
}

pub proof fn lemma_seg_step_concat(acc: Seq<(TaskStringTag, Seq<char>)>, chunk: Seq<char>)
    ensures
        seg_concat(seg_step(acc, chunk)) == seg_concat(acc) + chunk,
{
    let tag = classify_word(word_of(chunk));
    if tag == TaskStringTag::Other && acc.len() > 0 && acc.last().0 == TaskStringTag::Other {
        let merged = (TaskStringTag::Other, acc.last().1 + chunk);
        let acc2 = acc.update(acc.len() - 1, merged);
        assert(acc2 =~= acc.drop_last().push(merged));
        lemma_seg_concat_push(acc.drop_last(), merged);
        lemma_seg_concat_last(acc);
        assert(seg_concat(acc.drop_last()) + (acc.last().1 + chunk) =~= (seg_concat(
            acc.drop_last(),
        ) + acc.last().1) + chunk);
    } else {
        lemma_seg_concat_push(acc, (tag, chunk));
    }
}

pub proof fn lemma_assemble_concat(acc: Seq<(TaskStringTag, Seq<char>)>, cs: Seq<Seq<char>>)
    ensures
        seg_concat(assemble(acc, cs)) == seg_concat(acc) + concat_seqs(cs),
    decreases cs.len(),
{
    if cs.len() == 0 {
        assert(seg_concat(acc) + concat_seqs(cs) =~= seg_concat(acc));
    } else {
        lemma_seg_step_concat(acc, cs[0]);
        lemma_assemble_concat(seg_step(acc, cs[0]), cs.skip(1));
        assert((seg_concat(acc) + cs[0]) + concat_seqs(cs.skip(1)) =~= seg_concat(acc) + (cs[0]
            + concat_seqs(cs.skip(1))));
    }
}

/// The segments of a marked line concatenate back to the line exactly.
pub proof fn lemma_parse_task_concat(t: Seq<char>)
    requires
        has_marker(t),
    ensures
        seg_concat(spec_parse_task(t)) == t,
{
    let body = t.skip(2);
    let mseg = (TaskStringTag::Other, t.take(2));
    let base = seq![mseg];
    assert(base =~= Seq::<(TaskStringTag, Seq<char>)>::empty().push(mseg));
    lemma_seg_concat_push(Seq::<(TaskStringTag, Seq<char>)>::empty(), mseg);
    assert(seg_concat(base) == Seq::<char>::empty() + t.take(2));
    if has_priority(body) {
        let pseg = (TaskStringTag::Priority, body.take(3));
        let acc0 = base.push(pseg);
        lemma_seg_concat_push(base, pseg);
        lemma_assemble_concat(acc0, chunks(body.skip(3)));
        lemma_chunks_concat(body.skip(3));
        assert(seg_concat(assemble(acc0, chunks(body.skip(3)))) == ((Seq::<char>::empty()
            + t.take(2)) + body.take(3)) + body.skip(3));
        assert(((Seq::<char>::empty() + t.take(2)) + body.take(3)) + body.skip(3) =~= t);
    } else {
        lemma_assemble_concat(base, chunks(body));
        lemma_chunks_concat(body);
        assert(seg_concat(assemble(base, chunks(body))) == (Seq::<char>::empty() + t.take(2))
            + body);
        assert((Seq::<char>::empty() + t.take(2)) + body =~= t);
    }
}

/// Executable word classification.
fn classify_word_x(w: &Vec<char>) -> (r: TaskStringTag)
    ensures
        r == classify_word(w@),
{
    if w.len() == 0 {
        TaskStringTag::Other
    } else if w[0] == '@' {
        TaskStringTag::Context
    } else if w[0] == '+' {
        TaskStringTag::Project
    } else {
        let mut i: usize = 0;
        let mut found = false;
        while i < w.len()
            invariant
                i <= w@.len(),
                found == exists|j: int| 0 <= j < i && w@[j] == ':',
            decreases w@.len() - i,
        {
            if w[i] == ':' {
                found = true;
            }
            i += 1;
        }
        if found {
            assert(w@.contains(':'));
            TaskStringTag::KV
        } else {
            assert(!w@.contains(':'));
            TaskStringTag::Other
        }
    }
}

/// Whether a tag is `Other`, for merge decisions.
fn is_other(t: TaskStringTag) -> (r: bool)
    ensures
        r == (t == TaskStringTag::Other),
{
    match t {
        TaskStringTag::Other => true,
        _ => false,
    }
}

/// Splits a marked line into its tagged segments. The input must start
/// with the pending or the done marker.
pub fn parse_task_vec(v: &Vec<char>) -> (arr: Vec<TaskSection>)
    requires
        has_marker(v@),
    ensures
        arr.deep_view() == spec_parse_task(v@),
{
    let ghost t = v@;
    let marker = subvec(v, 0, 2);
    let body = subvec(v, 2, v.len());
    proof {
        assert(body@ =~= t.skip(2));
    }
    let mut arr: Vec<TaskSection> = Vec::new();
    arr.push(TaskSection(TaskStringTag::Other, chars_to_string(&marker)));
    let rest: Vec<char> = if body.len() >= 3 && body[0] == '(' && 'A' <= body[1] && body[1] <= 'Z'
        && body[2] == ')' {
        let pri = subvec(&body, 0, 3);
        proof {
            assert(pri@ =~= t.skip(2).take(3));
        }
        arr.push(TaskSection(TaskStringTag::Priority, chars_to_string(&pri)));
        let r = subvec(&body, 3, body.len());
        proof {
            assert(r@ =~= t.skip(2).skip(3));
        }
        r
    } else {
        body
    };
    let ghost acc0 = arr.deep_view();
    proof {
        if has_priority(t.skip(2)) {
            assert(acc0 =~~= seq![(TaskStringTag::Other, t.take(2))].push(
                (TaskStringTag::Priority, t.skip(2).take(3)),
            ));
        } else {
            assert(acc0 =~~= seq![(TaskStringTag::Other, t.take(2))]);
        }
        assert(spec_parse_task(t) == assemble(acc0, chunks(rest@)));
    }
    let cs = crate::text::chunk_split(&rest);
    let ghost csv = cs.deep_view();
    let mut i: usize = 0;
    proof {
        assert(csv.skip(0) =~= csv);
    }
    while i < cs.len()
        invariant
            i <= csv.len(),
            cs.deep_view() == csv,
            cs@.len() == csv.len(),
            assemble(arr.deep_view(), csv.skip(i as int)) == assemble(acc0, csv),
            arr.deep_view().len() > 0,
        decreases csv.len() - i,
    {
        let chunk = &cs[i];
        assert(chunk@ == csv[i as int]);
        let wsl = run_len(chunk, 0, true);
        proof {
            lemma_ws_prefix_is(chunk@, wsl as int);
        }
        let word = subvec(chunk, wsl, chunk.len());
        proof {
            assert(word@ =~= word_of(csv[i as int]));
        }
        let tag = classify_word_x(&word);
        let ghost accv = arr.deep_view();
        let n = arr.len();
        let merge = if is_other(tag) {
            let last_ref = &arr[n - 1];
            is_other(last_ref.0)
        } else {
            false
        };
        if merge {
            let last = arr.pop().unwrap();
            let chunk_str = chars_to_string(chunk);
            let merged_text = last.1.concat(chunk_str.as_str());
            arr.push(TaskSection(TaskStringTag::Other, merged_text));
            proof {
                assert(arr.deep_view() =~~= seg_step(accv, csv[i as int]));
            }
        } else {
            let chunk_str = chars_to_string(chunk);
            arr.push(TaskSection(tag, chunk_str));
            proof {
                assert(arr.deep_view() =~~= seg_step(accv, csv[i as int]));
            }
        }
        proof {
            assert(csv.skip(i as int)[0] == csv[i as int]);
            assert(csv.skip(i as int).skip(1) =~= csv.skip(i as int + 1));
            assert(assemble(accv, csv.skip(i as int)) == assemble(
                seg_step(accv, csv[i as int]),
                csv.skip(i as int + 1),
            ));
        }
        i += 1;
    }
    proof {
        assert(csv.skip(i as int) =~= Seq::<Seq<char>>::empty());
    }
    arr
}

/// Splits a marked line into its tagged segments.
pub fn parse_task(text: &str) -> (arr: Vec<TaskSection>)
    requires
        has_marker(text@),
    ensures
        arr.deep_view() == spec_parse_task(text@),
{
    let v = str_to_chars(text);
    parse_task_vec(&v)
}

/// A task: its raw text, its done flag, and its tagged segments.
#[derive(Debug)]
pub struct Task {
    pub text: String,
    pub arr: Vec<TaskSection>,
    pub done: bool,
}

impl Clone for Task {
    fn clone(&self) -> (r: Self)
        ensures
            r.text@ == self.text@,
            r.done == self.done,
            r.arr.deep_view() == self.arr.deep_view(),
    {
        let mut arr: Vec<TaskSection> = Vec::new();
        let mut i: usize = 0;
        proof {
            assert(arr.deep_view() =~~= self.arr.deep_view().take(0));
        }
        while i < self.arr.len()
            invariant
                i <= self.arr@.len(),
                arr.deep_view() == self.arr.deep_view().take(i as int),
            decreases self.arr@.len() - i,
        {
            let ghost av = arr.deep_view();
            let c = self.arr[i].clone();
            proof {
                assert(self.arr.deep_view()[i as int] == self.arr@[i as int].deep_view());
            }
            arr.push(c);
            proof {
                assert(arr.deep_view() =~~= av.push(self.arr.deep_view()[i as int]));
                assert(av.push(self.arr.deep_view()[i as int]) =~~= self.arr.deep_view().take(
                    i + 1,
                ));
            }
            i += 1;
        }
        proof {
            assert(arr.deep_view() =~~= self.arr.deep_view());
        }
        Task { text: self.text.clone(), arr, done: self.done }
    }
}

/// Law: a well-formed task's segments concatenate back to its raw text,
/// so the tagged representation is lossless.
pub proof fn lemma_task_round_trip(t: Task)
    requires
        t.wf(),
    ensures
        seg_concat(t.arr.deep_view()) == t.text@,
{
    lemma_parse_task_concat(t.text@);
}

/// The stored text of a new task made from `raw`: trimmed, and given the
/// pending marker unless it already carries a marker.
pub open spec fn spec_new_text(raw: Seq<char>) -> Seq<char> {
    let t = trim(raw);
    if starts_with(t, done_marker()) || starts_with(t, pending_marker()) {
        t
    } else {
        pending_marker() + t
    }
}

impl Task {
    /// A task is well formed when its text carries a marker, the done flag
    /// matches the marker, and the segments are exactly the parse of the
    /// text (so they concatenate back to it losslessly).
    pub open spec fn wf(self) -> bool {
        has_marker(self.text@) && self.done == starts_with(self.text@, done_marker())
            && self.arr.deep_view() == spec_parse_task(self.text@)
    }

    /// The line the task is stored under in the file: a done line as it
    /// stands, a pending line with its marker stripped.
    pub fn storage_line(&self) -> (r: String)
        requires
            self.wf(),
        ensures
            self.done ==> r@ == self.text@,
            !self.done ==> r@ == self.text@.skip(2),
    {
        let chars = str_to_chars(self.text.as_str());
        if self.done {
            chars_to_string(&chars)
        } else {
            let rest = subvec(&chars, 2, chars.len());
            proof {
                assert(rest@ =~= self.text@.skip(2));
            }
            chars_to_string(&rest)
        }
    }

    /// Parses one line of input into a task.
    pub fn new(text: &str) -> (r: Self)
        ensures
            r.wf(),
            r.text@ == spec_new_text(text@),
            r.done == starts_with(trim(text@), done_marker()),
    {
        let chars = str_to_chars(text);
        let t = trim_vec(&chars);
        let done = t.len() >= 2 && t[0] == 'x' && t[1] == ' ';
        proof {
            if done {
                assert(t@.take(2) =~= done_marker());
            } else if t@.len() >= 2 && t@.take(2) == done_marker() {
                assert(t@[0] == 'x' && t@[1] == ' ');
            }
        }
        let pending = t.len() >= 2 && t[0] == '\u{2610}' && t[1] == ' ';
        proof {
            if pending {
                assert(t@.take(2) =~= pending_marker());
            } else if t@.len() >= 2 && t@.take(2) == pending_marker() {
                assert(t@[0] == '\u{2610}' && t@[1] == ' ');
            }
        }
        let full: Vec<char> = if done || pending {
            t
        } else {
            let mut f: Vec<char> = Vec::new();
            f.push('\u{2610}');
            f.push(' ');
            crate::text::push_all(&mut f, &t);
            proof {
                assert(f@ =~= pending_marker() + t@);
                assert(f@.take(2) =~= pending_marker());
                assert(f@.take(2) != done_marker());
            }
            f
        };
        let arr = parse_task_vec(&full);
        let text_s = chars_to_string(&full);
        Task { text: text_s, arr, done }
    }
}

} // verus!
